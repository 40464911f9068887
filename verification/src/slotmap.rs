//! The paged generational slot map.

use vstd::prelude::*;
use vstd::std_specs::cmp::{PartialEqSpec, PartialEqSpecImpl};
use crate::collection::{entries_of, Clear, Len, Retain, Rev, Valid};
use crate::each_mut::each_mut;
use crate::deque::Push;
use crate::genindex::{same_parts, GenIndex};
use crate::map::{KeyedMap, MapGet, MapInsert, MapMut};
use crate::unsigned::UnsignedInt;

verus! {

/// A slot map that hands out generational handles and keeps its values in
/// pages of `N` slots each.
///
/// Every slot has a position, a generation and, while it is live, a value. A
/// handle names a slot by position and is valid while its generation is the
/// slot's. Removing a value frees the slot; freed slots wait in a first-in,
/// first-out list and are reused, each time in the next generation, before
/// any new slot is made.
///
/// A free slot keeps the position of the free slot after it in the index
/// field of its stored handle. That link never leaves the map: callers see
/// positions, generations, values and the order of the free list.
pub struct PagedSlotMap<T, I, const N: usize> {
    indices: Vec<I>,
    pages: Vec<Vec<Option<T>>>,
    free_list_head: usize,
    free_list_tail: usize,
    free_list_size: usize,
    free: Ghost<Seq<int>>,
}

/// Why a handle array and a value array do not make a slot map.
#[derive(Clone, Copy, Debug, PartialEq, Eq, Structural)]
pub enum RebuildError {
    /// The two arrays differ in length.
    LengthMismatch,
    /// A stored index does not fit `usize`, or a position does not fit the
    /// index type of the handles.
    InvalidIndex,
    /// A value stands in a slot whose handle marks it as free.
    ValueInFreeSlot,
}

/// A position below `pages * n` lies in one of the pages, at an offset below `n`.
proof fn lemma_page_of(pos: int, n: int, pages: int)
    requires
        0 <= pos < pages * n,
        n > 0,
    ensures
        0 <= pos / n < pages,
        0 <= pos % n < n,
{
    vstd::arithmetic::div_mod::lemma_fundamental_div_mod(pos, n);
    vstd::arithmetic::div_mod::lemma_mod_bound(pos, n);
    assert(0 <= pos / n) by (nonlinear_arith)
        requires
            0 <= pos,
            n > 0,
    ;
    assert(pos / n < pages) by (nonlinear_arith)
        requires
            pos == n * (pos / n) + pos % n,
            0 <= pos % n,
            pos < pages * n,
            n > 0,
    ;
}

/// Two positions with the same page and the same offset are the same position.
proof fn lemma_page_and_offset_determine(a: int, b: int, n: int)
    requires
        n > 0,
        a / n == b / n,
        a % n == b % n,
    ensures
        a == b,
{
    vstd::arithmetic::div_mod::lemma_fundamental_div_mod(a, n);
    vstd::arithmetic::div_mod::lemma_fundamental_div_mod(b, n);
}

/// A sequence of distinct positions below `n` that misses one of them is
/// shorter than `n`.
proof fn lemma_positions_leave_room(s: Seq<int>, n: int, absent: int)
    requires
        s.no_duplicates(),
        forall|k: int| 0 <= k < s.len() ==> 0 <= #[trigger] s[k] < n,
        0 <= absent < n,
        !s.contains(absent),
    ensures
        s.len() < n,
{
    s.unique_seq_to_set();
    vstd::set_lib::lemma_int_range(0, n);
    let range = vstd::set_lib::set_int_range(0, n);
    let smaller = range.remove(absent);
    assert(s.to_set().subset_of(smaller)) by {
        assert forall|x: int| s.to_set().contains(x) implies smaller.contains(x) by {
            let k = choose|k: int| 0 <= k < s.len() && s[k] == x;
            assert(0 <= s[k] < n);
        }
    }
    vstd::set_lib::lemma_len_subset(s.to_set(), smaller);
}

/// From one page, takes the handle and a mutable reference to the value of
/// every slot that holds one, in the order of the positions. The page holds
/// the slots from position `base` on, of which the first `count` exist.
#[verifier::loop_isolation(false)]
fn page_iter_mut<'a, T, I: GenIndex>(
    indices: &'a Vec<I>,
    page: &'a mut Vec<Option<T>>,
    base: usize,
    count: usize,
) -> (r: Vec<(&'a I, &'a mut T)>)
    requires
        base + count <= indices@.len(),
        count <= old(page)@.len(),
        forall|o: int|
            0 <= o < count ==> (#[trigger] old(page)@[o] is Some ==> indices@[base + o].spec_index()
                == base + o),
    ensures
        final(page)@.len() == old(page)@.len(),
        forall|j: int|
            0 <= j < r@.len() ==> base <= (#[trigger] r@[j]).0.spec_index() < base + count
                && *r@[j].0 == indices@[r@[j].0.spec_index() as int]
                    && Some(*r@[j].1) == old(page)@[r@[j].0.spec_index() - base]
                    && final(page)@[r@[j].0.spec_index() - base] == Some(
                *final(r@[j].1),
            ),
        forall|a: int, b: int|
            0 <= a < b < r@.len() ==> (#[trigger] r@[a]).0.spec_index() < (
            #[trigger] r@[b]).0.spec_index(),
        forall|o: int|
            0 <= o < count && #[trigger] old(page)@[o] is Some ==> exists|j: int|
                0 <= j < r@.len() && (#[trigger] r@[j]).0.spec_index() == base + o,
        forall|o: int|
            0 <= o < count && old(page)@[o] is None ==> #[trigger] final(page)@[o] is None,
{
    let ghost start = page@;
    let ghost whole = page;
    let cells = each_mut(page);
    let ghost all = cells@;
    let len = cells.len();
    let mut stack = cells.rev();
    let mut out: Vec<(&'a I, &'a mut T)> = Vec::new();
    let mut o: usize = 0;
    while o < count
        invariant
            o <= count,
            len == all.len(),
            stack@.len() == len - o,
            forall|k: int| 0 <= k < stack@.len() ==> #[trigger] stack@[k] == all[len - 1 - k],
            forall|j: int|
                0 <= j < out@.len() ==> base <= (#[trigger] out@[j]).0.spec_index() < base + o
                    && *out@[j].0 == indices@[out@[j].0.spec_index() as int] && Some(*out@[j].1)
                    == start[out@[j].0.spec_index() - base]
                        && *final(all[out@[j].0.spec_index() - base]) == Some(*final(out@[j].1)),
            forall|a: int, b: int|
                0 <= a < b < out@.len() ==> (#[trigger] out@[a]).0.spec_index() < (
                #[trigger] out@[b]).0.spec_index(),
            forall|k: int|
                0 <= k < o && #[trigger] start[k] is Some ==> exists|j: int|
                    0 <= j < out@.len() && (#[trigger] out@[j]).0.spec_index() == base + k,
            forall|k: int| 0 <= k < o && start[k] is None ==> *final(#[trigger] all[k]) is None,
        decreases count - o,
    {
        let ghost done = out@;
        let cell = stack.pop().unwrap();
        proof {
            assert(cell == all[o as int]);
            assert(*cell == start[o as int]);
        }
        match cell.as_mut() {
            Some(value) => {
                assert(indices@.len() == indices.len());
                let handle = &indices[base + o];
                out.push((handle, value));
                proof {
                    assert forall|j: int| 0 <= j < out@.len() implies base <= (
                    #[trigger] out@[j]).0.spec_index() < base + o + 1 && *out@[j].0
                        == indices@[out@[j].0.spec_index() as int] && Some(*out@[j].1)
                        == start[out@[j].0.spec_index() - base]
                            && *final(all[out@[j].0.spec_index() - base]) == Some(*final(out@[j].1)) by {
                        if j < done.len() {
                            assert(out@[j] == done[j]);
                        }
                    }
                    assert forall|a: int, b: int| 0 <= a < b < out@.len() implies (
                    #[trigger] out@[a]).0.spec_index() < (#[trigger] out@[b]).0.spec_index() by {
                        assert(out@[a] == done[a]);
                        if b < done.len() {
                            assert(out@[b] == done[b]);
                        }
                    }
                    assert forall|k: int| 0 <= k < o + 1
                        && #[trigger] start[k] is Some implies exists|
                        j: int,
                    | 0 <= j < out@.len() && (#[trigger] out@[j]).0.spec_index() == base + k by {
                        if k < o {
                            let j = choose|j: int|
                                0 <= j < done.len() && (#[trigger] done[j]).0.spec_index() == base
                                    + k;
                            assert(out@[j] == done[j]);
                        } else {
                            assert(out@[done.len() as int].0.spec_index() == base + k);
                        }
                    }
                }
            },
            None => {},
        }
        o += 1;
    }
    proof {
        assert forall|j: int| 0 <= j < out@.len() implies final(whole)@[(
        #[trigger] out@[j]).0.spec_index() - base] == Some(*final(out@[j].1)) by {
            let k = out@[j].0.spec_index() - base;
            assert(final(whole)@[k] == *final(all[k]));
        }
        assert forall|k: int| 0 <= k < count
            && start[k] is None implies #[trigger] final(whole)@[k] is None by {
            assert(final(whole)@[k] == *final(all[k]));
        }
    }
    out
}

/// Makes a page of `n` empty slots.
fn new_page<T>(n: usize) -> (page: Vec<Option<T>>)
    ensures
        page@.len() == n,
        forall|i: int| 0 <= i < n ==> #[trigger] page@[i] is None,
{
    let mut page: Vec<Option<T>> = Vec::new();
    let mut i: usize = 0;
    while i < n
        invariant
            i <= n,
            page@.len() == i,
            forall|j: int| 0 <= j < i ==> #[trigger] page@[j] is None,
        decreases n - i,
    {
        page.push(None);
        i += 1;
    }
    page
}

impl<T, I: GenIndex, const N: usize> PagedSlotMap<T, I, N> {
    /// The number of slots, live and free.
    pub closed spec fn slot_count(&self) -> nat {
        self.indices@.len()
    }

    /// The generation of the slot at `pos`.
    pub closed spec fn generation_at(&self, pos: int) -> nat {
        self.indices@[pos].spec_generation()
    }

    /// The value of the slot at `pos`: `Some` while the slot is live.
    pub closed spec fn value_at(&self, pos: int) -> Option<T> {
        self.pages@[pos / (N as int)]@[pos % (N as int)]
    }

    /// The positions of the free slots, the next one to be reused first.
    pub closed spec fn free_list(&self) -> Seq<int> {
        self.free@
    }

    /// Whether the stored handle at `pos` marks the slot as free.
    spec fn dead(&self, pos: int) -> bool {
        self.indices@[pos].spec_index() != pos
    }

    /// The invariant of the map while the slots of `pending` have been freed
    /// but not yet appended to the free list. `pending` is itself a chain,
    /// linked like the free list.
    spec fn inv(&self, pending: Seq<int>) -> bool {
        let n = self.indices@.len();
        let all = self.free@ + pending;
        &&& self.free@.len() == self.free_list_size
        &&& self.free_list_size + pending.len() <= n
        &&& n <= self.pages@.len() * N
        &&& forall|p: int| 0 <= p < self.pages@.len() ==> (#[trigger] self.pages@[p])@.len() == N
        &&& n <= I::Index::max_nat() + 1
        &&& forall|k: int| 0 <= k < all.len() ==> 0 <= #[trigger] all[k] < n && self.dead(all[k])
        &&& all.no_duplicates()
        &&& forall|pos: int| 0 <= pos < n && #[trigger] self.dead(pos) ==> all.contains(pos)
        &&& forall|k: int|
            0 <= k < self.free@.len() - 1 ==> (#[trigger] self.indices@[self.free@[k]]).spec_index()
                == self.free@[k + 1]
        &&& forall|k: int|
            0 <= k < pending.len() - 1 ==> (#[trigger] self.indices@[pending[k]]).spec_index()
                == pending[k + 1]
        &&& self.free@.len() > 0 ==> self.free_list_head == self.free@[0] && self.free_list_tail
            == self.free@.last()
        &&& forall|pos: int| 0 <= pos < n ==> (self.dead(pos) <==> #[trigger] self.value_at(pos) is None)
    }

    /// The invariant of the map: the free list holds exactly the slots without
    /// a value, each once, and every position fits the handle's index type.
    pub closed spec fn wf(&self) -> bool {
        self.inv(Seq::empty())
    }

    /// Whether `key` is the handle of a live slot: its position exists, holds
    /// a value, and is in the generation of the handle.
    pub open spec fn contains(&self, key: I) -> bool {
        &&& key.spec_index() < self.slot_count()
        &&& self.value_at(key.spec_index() as int) is Some
        &&& self.generation_at(key.spec_index() as int) == key.spec_generation()
    }

    /// Whether `self` and `other` have the same slots but for the one at
    /// `pos`: the same count, and elsewhere the same generations and values.
    pub open spec fn agrees_except(&self, other: &Self, pos: int) -> bool {
        &&& self.slot_count() == other.slot_count()
        &&& forall|p: int|
            0 <= p < self.slot_count() && p != pos ==> self.generation_at(p)
                == other.generation_at(p) && self.value_at(p) == other.value_at(p)
    }

    /// Whether `self` and `other` are the same map: the same slots and the
    /// same free list.
    pub open spec fn agrees(&self, other: &Self) -> bool {
        &&& self.agrees_except(other, -1)
        &&& self.free_list() == other.free_list()
    }

    /// The position that the next `push` fills: the first of the free list,
    /// or a new slot where the list is empty.
    pub open spec fn next_position(&self) -> int {
        if self.free_list().len() > 0 {
            self.free_list()[0]
        } else {
            self.slot_count() as int
        }
    }

    /// Whether `self` is what `before` becomes when `value` is pushed and
    /// `handle` is returned for it.
    ///
    /// With a free slot at hand, the first of the free list is taken and its
    /// generation advanced; the number of slots stays. Otherwise a slot is
    /// added at the end, in generation 1. No other slot changes.
    pub open spec fn is_push_of(&self, before: &Self, value: T, handle: I) -> bool {
        let pos = before.next_position();
        let reused = before.free_list().len() > 0;
        &&& handle.spec_index() == pos
        &&& handle.spec_generation() == (if reused {
            crate::genindex::spec_next_generation(
                before.generation_at(pos),
                I::spec_max_generation(),
            )
        } else {
            1
        })
        &&& self.slot_count() == (if reused {
            before.slot_count()
        } else {
            before.slot_count() + 1
        })
        &&& self.free_list() == (if reused {
            before.free_list().drop_first()
        } else {
            before.free_list()
        })
        &&& self.value_at(pos) == Some(value)
        &&& self.generation_at(pos) == handle.spec_generation()
        &&& forall|p: int|
            0 <= p < before.slot_count() && p != pos ==> self.generation_at(p)
                == before.generation_at(p) && self.value_at(p) == before.value_at(p)
    }

    /// Whether `self` is what `before` becomes when `key` is removed and
    /// `taken` is returned.
    ///
    /// A handle of a live slot frees the slot: its value is handed out, its
    /// generation stays, and its position goes to the end of the free list.
    /// Any other handle changes nothing and yields `None`.
    pub open spec fn is_remove_of(&self, before: &Self, key: I, taken: Option<T>) -> bool {
        if before.contains(key) {
            let pos = key.spec_index() as int;
            &&& taken == before.value_at(pos)
            &&& self.agrees_except(before, pos)
            &&& self.value_at(pos) is None
            &&& self.generation_at(pos) == key.spec_generation()
            &&& self.free_list() == before.free_list().push(pos)
        } else {
            taken is None && self.agrees(before)
        }
    }

    /// The number of live slots.
    pub open spec fn spec_len(&self) -> nat {
        (self.slot_count() - self.free_list().len()) as nat
    }

    /// What the invariant says of the free list: its slots exist, are without
    /// a value and occur once, and no other slot is without a value.
    pub proof fn lemma_free_list(&self)
        requires
            self.wf(),
        ensures
            self.free_list().len() <= self.slot_count(),
            self.free_list().no_duplicates(),
            forall|k: int|
                0 <= k < self.free_list().len() ==> 0 <= #[trigger] self.free_list()[k]
                    < self.slot_count() && self.value_at(self.free_list()[k]) is None,
            forall|pos: int|
                0 <= pos < self.slot_count() && #[trigger] self.value_at(pos) is None
                    ==> self.free_list().contains(pos),
            self.slot_count() <= I::Index::max_nat() + 1,
    {
        let all = self.free@ + Seq::<int>::empty();
        assert(all =~= self.free@);
        assert forall|k: int| 0 <= k < self.free_list().len() implies 0 <= #[trigger] self.free_list()[k]
            < self.slot_count() && self.value_at(self.free_list()[k]) is None by {
            assert(0 <= all[k] < self.indices@.len() && self.dead(all[k]));
        }
    }

    /// Creates an empty map.
    pub fn new() -> (r: Self)
        ensures
            r.wf(),
            r.slot_count() == 0,
            r.free_list() == Seq::<int>::empty(),
    {
        let r = PagedSlotMap {
            indices: Vec::new(),
            pages: Vec::new(),
            free_list_head: 0,
            free_list_tail: 0,
            free_list_size: 0,
            free: Ghost(Seq::empty()),
        };
        proof {
            assert(r.free@ + Seq::<int>::empty() =~= Seq::<int>::empty());
        }
        r
    }

    /// Returns the number of live values.
    pub fn len(&self) -> (n: usize)
        requires
            self.wf(),
        ensures
            n == self.spec_len(),
    {
        self.indices.len() - self.free_list_size
    }

    /// Removes every value and every slot.
    pub fn clear(&mut self)
        ensures
            final(self).wf(),
            final(self).slot_count() == 0,
            final(self).free_list() == Seq::<int>::empty(),
    {
        self.indices.clear();
        self.pages.clear();
        self.free_list_head = 0;
        self.free_list_tail = 0;
        self.free_list_size = 0;
        self.free = Ghost(Seq::empty());
        proof {
            assert(self.free@ + Seq::<int>::empty() =~= Seq::<int>::empty());
        }
    }

    /// Returns the value that `key` refers to, or `None` where `key` is not
    /// the handle of a live slot: its position is out of range, or the slot is
    /// free or in another generation.
    pub fn get(&self, key: &I) -> (r: Option<&T>)
        requires
            self.wf(),
        ensures
            self.contains(*key) ==> r == Some(&self.value_at(key.spec_index() as int).unwrap()),
            !self.contains(*key) ==> r is None,
    {
        let idx = match key.index().to_usize() {
            Some(idx) => idx,
            None => {
                assert(self.indices@.len() == self.indices.len());
                return None;
            },
        };
        if idx >= self.indices.len() {
            return None;
        }
        if self.indices[idx].same(key) {
            proof {
                lemma_page_of(idx as int, N as int, self.pages@.len() as int);
                assert(!self.dead(idx as int));
                assert(self.value_at(idx as int) is Some);
            }
            self.pages[idx / N][idx % N].as_ref()
        } else {
            proof {
                if self.value_at(idx as int) is Some {
                    assert(!self.dead(idx as int));
                }
            }
            None
        }
    }

    /// Adds a slot at the end, with `handle` as its stored handle. A live slot
    /// comes with its value and a handle that names the new position. A free
    /// slot comes without a value and with a handle that links to the head of
    /// the chain `pending`, of which it becomes the new head.
    fn append_slot(&mut self, handle: I, value: Option<T>, Ghost(pending): Ghost<Seq<int>>)
        requires
            old(self).inv(pending),
            N > 0,
            old(self).indices@.len() <= I::Index::max_nat(),
            value is Some <==> handle.spec_index() == old(self).indices@.len(),
            value is None && pending.len() > 0 ==> handle.spec_index() == pending[0],
        ensures
            final(self).inv(
                if value is Some {
                    pending
                } else {
                    seq![old(self).indices@.len() as int] + pending
                },
            ),
            final(self).slot_count() == old(self).slot_count() + 1,
            final(self).free@ == old(self).free@,
            final(self).free_list_size == old(self).free_list_size,
            final(self).free_list_head == old(self).free_list_head,
            final(self).free_list_tail == old(self).free_list_tail,
            final(self).value_at(old(self).slot_count() as int) == value,
            final(self).generation_at(old(self).slot_count() as int) == handle.spec_generation(),
            forall|p: int|
                0 <= p < old(self).slot_count() ==> final(self).generation_at(p) == old(self).generation_at(p)
                    && final(self).value_at(p) == old(self).value_at(p),
    {
        let ghost before = *self;
        let ghost known = self.free@ + pending;
        let idx = self.indices.len();
        assert(self.indices@.len() == idx);
        if idx / N >= self.pages.len() {
            self.pages.push(new_page::<T>(N));
            proof {
                let pages = before.pages@.len() as int;
                let n = N as int;
                if idx < pages * n {
                    lemma_page_of(idx as int, n, pages);
                }
                assert((pages + 1) * n == pages * n + n) by (nonlinear_arith);
            }
        } else {
            proof {
                let pages = before.pages@.len() as int;
                let n = N as int;
                vstd::arithmetic::div_mod::lemma_fundamental_div_mod(idx as int, n);
                vstd::arithmetic::div_mod::lemma_mod_bound(idx as int, n);
                assert(idx < pages * n) by (nonlinear_arith)
                    requires
                        idx == n * (idx as int / n) + idx as int % n,
                        idx as int % n < n,
                        idx as int / n < pages,
                        n > 0,
                ;
            }
        }
        assert(idx < self.pages@.len() * N);
        let ghost grown = *self;
        proof {
            assert forall|pos: int| 0 <= pos < idx implies grown.value_at(pos) == before.value_at(
                pos,
            ) by {
                lemma_page_of(pos, N as int, before.pages@.len() as int);
            }
        }
        self.indices.push(handle);
        proof {
            lemma_page_of(idx as int, N as int, self.pages@.len() as int);
        }
        self.pages[idx / N][idx % N] = value;
        proof {
            let chain = if value is Some {
                pending
            } else {
                seq![idx as int] + pending
            };
            let all = self.free@ + chain;
            let m = before.free@.len() as int;
            assert forall|pos: int| 0 <= pos < idx implies self.value_at(pos) == before.value_at(pos)
                && self.generation_at(pos) == before.generation_at(pos) && (self.dead(pos)
                <==> before.dead(pos)) by {
                lemma_page_of(pos, N as int, self.pages@.len() as int);
                if pos / (N as int) == idx as int / (N as int) && pos % (N as int) == idx as int % (
                N as int) {
                    lemma_page_and_offset_determine(pos, idx as int, N as int);
                }
            }
            assert(self.value_at(idx as int) == value);
            assert(self.dead(idx as int) <==> value is None);
            assert forall|p: int| 0 <= p < self.pages@.len() implies (
            #[trigger] self.pages@[p])@.len() == N by {
                if p < before.pages@.len() {
                    assert(before.pages@[p]@.len() == N);
                }
            }
            assert forall|pos: int| 0 <= pos < self.indices@.len() implies (self.dead(pos)
                <==> #[trigger] self.value_at(pos) is None) by {
                if pos != idx {
                    assert(before.dead(pos) <==> before.value_at(pos) is None);
                    assert(self.dead(pos) <==> before.dead(pos));
                    assert(self.value_at(pos) == before.value_at(pos));
                }
            }
            assert forall|k: int| 0 <= k < self.free@.len() - 1 implies (
            #[trigger] self.indices@[self.free@[k]]).spec_index() == self.free@[k + 1] by {
                assert(known[k] == before.free@[k]);
                assert(before.indices@[before.free@[k]].spec_index() == before.free@[k + 1]);
            }
            if value is Some {
                assert(all =~= known);
                assert forall|k: int| 0 <= k < all.len() implies 0 <= #[trigger] all[k]
                    < self.indices@.len() && self.dead(all[k]) by {
                    assert(before.dead(known[k]));
                }
                assert forall|pos: int| 0 <= pos < self.indices@.len() && #[trigger] self.dead(
                    pos,
                ) implies all.contains(pos) by {
                    assert(before.dead(pos));
                }
                assert forall|k: int| 0 <= k < chain.len() - 1 implies (
                #[trigger] self.indices@[chain[k]]).spec_index() == chain[k + 1] by {
                    assert(known[m + k] == pending[k]);
                    assert(before.indices@[pending[k]].spec_index() == pending[k + 1]);
                }
            } else {
                assert(all.len() == known.len() + 1);
                assert forall|k: int| 0 <= k < all.len() implies all[k] == (if k < m {
                    known[k]
                } else if k == m {
                    idx as int
                } else {
                    known[k - 1]
                }) by {}
                assert forall|k: int| 0 <= k < all.len() implies 0 <= #[trigger] all[k]
                    < self.indices@.len() && self.dead(all[k]) by {
                    if k < m {
                        assert(before.dead(known[k]));
                    } else if k > m {
                        assert(before.dead(known[k - 1]));
                    }
                }
                assert(all.no_duplicates()) by {
                    assert forall|i: int, j: int| 0 <= i < all.len() && 0 <= j < all.len() && i
                        != j implies all[i] != all[j] by {
                        let a = if i < m {
                            i
                        } else {
                            i - 1
                        };
                        let b = if j < m {
                            j
                        } else {
                            j - 1
                        };
                        if i != m && j != m {
                            assert(known[a] != known[b]);
                        } else if i != m {
                            assert(known[a] < idx);
                        } else {
                            assert(known[b] < idx);
                        }
                    }
                }
                assert forall|pos: int| 0 <= pos < self.indices@.len() && #[trigger] self.dead(
                    pos,
                ) implies all.contains(pos) by {
                    if pos == idx {
                        assert(all[m] == pos);
                    } else {
                        assert(before.dead(pos));
                        let k = choose|k: int| 0 <= k < known.len() && known[k] == pos;
                        if k < m {
                            assert(all[k] == pos);
                        } else {
                            assert(all[k + 1] == pos);
                        }
                    }
                }
                assert forall|k: int| 0 <= k < chain.len() - 1 implies (
                #[trigger] self.indices@[chain[k]]).spec_index() == chain[k + 1] by {
                    if k > 0 {
                        assert(chain[k] == pending[k - 1]);
                        assert(chain[k + 1] == pending[k]);
                        assert(known[m + k - 1] == pending[k - 1]);
                        assert(before.indices@[pending[k - 1]].spec_index() == pending[k]);
                    } else {
                        assert(chain[1] == pending[0]);
                    }
                }
            }
        }
    }

    /// Frees the live slot at `idx`: takes its value out and stores `link` in
    /// its index field, which makes it the new head of the chain `pending`.
    fn retire(&mut self, idx: usize, link: usize, Ghost(pending): Ghost<Seq<int>>) -> (taken:
        Option<T>)
        requires
            old(self).inv(pending),
            idx < old(self).indices@.len(),
            !old(self).dead(idx as int),
            link != idx,
            link <= I::Index::max_nat(),
            pending.len() > 0 ==> link == pending[0],
        ensures
            final(self).inv(seq![idx as int] + pending),
            taken == old(self).value_at(idx as int),
            taken is Some,
            final(self).agrees_except(old(self), idx as int),
            final(self).value_at(idx as int) is None,
            final(self).generation_at(idx as int) == old(self).generation_at(idx as int),
            final(self).free@ == old(self).free@,
    {
        let ghost before = *self;
        let ghost known = self.free@ + pending;
        proof {
            lemma_page_of(idx as int, N as int, self.pages@.len() as int);
            assert(self.value_at(idx as int) is Some);
            if known.contains(idx as int) {
                let k = choose|k: int| 0 <= k < known.len() && known[k] == idx as int;
                assert(self.dead(known[k]));
            }
            lemma_positions_leave_room(known, self.indices@.len() as int, idx as int);
        }
        let stored = self.indices[idx];
        let generation = stored.generation();
        let next = I::Index::from_usize(link).unwrap();
        let handle = I::from_raw_parts(next, generation);
        proof {
            stored.lemma_parts_in_range();
            I::lemma_round_trip(next, generation);
        }
        self.indices[idx] = handle;
        let value = self.pages[idx / N][idx % N].take();
        proof {
            let chain = seq![idx as int] + pending;
            let all = self.free@ + chain;
            let m = before.free@.len() as int;
            assert(all.len() == known.len() + 1);
            assert forall|k: int| 0 <= k < all.len() implies all[k] == (if k < m {
                known[k]
            } else if k == m {
                idx as int
            } else {
                known[k - 1]
            }) by {}
            assert forall|pos: int| 0 <= pos < self.indices@.len() && pos != idx implies (self.dead(
                pos,
            ) <==> before.dead(pos)) && self.value_at(pos) == before.value_at(pos)
                && self.generation_at(pos) == before.generation_at(pos) by {
                lemma_page_of(pos, N as int, self.pages@.len() as int);
                if pos / (N as int) == idx as int / (N as int) && pos % (N as int) == idx as int % (
                N as int) {
                    lemma_page_and_offset_determine(pos, idx as int, N as int);
                }
            }
            assert(self.value_at(idx as int) is None);
            assert(self.dead(idx as int));
            assert forall|p: int| 0 <= p < self.pages@.len() implies (
            #[trigger] self.pages@[p])@.len() == N by {
                assert(before.pages@[p]@.len() == N);
            }
            assert forall|k: int| 0 <= k < all.len() implies 0 <= #[trigger] all[k]
                < self.indices@.len() && self.dead(all[k]) by {
                if k < m {
                    assert(before.dead(known[k]));
                } else if k > m {
                    assert(before.dead(known[k - 1]));
                }
            }
            assert(all.no_duplicates()) by {
                assert forall|i: int, j: int| 0 <= i < all.len() && 0 <= j < all.len() && i
                    != j implies all[i] != all[j] by {
                    let a = if i < m {
                        i
                    } else {
                        i - 1
                    };
                    let b = if j < m {
                        j
                    } else {
                        j - 1
                    };
                    if i != m && j != m {
                        assert(known[a] != known[b]);
                    } else if i != m {
                        assert(known.contains(known[a]));
                    } else {
                        assert(known.contains(known[b]));
                    }
                }
            }
            assert forall|pos: int| 0 <= pos < self.indices@.len() && #[trigger] self.dead(
                pos,
            ) implies all.contains(pos) by {
                if pos == idx {
                    assert(all[m] == pos);
                } else {
                    assert(before.dead(pos));
                    let k = choose|k: int| 0 <= k < known.len() && known[k] == pos;
                    if k < m {
                        assert(all[k] == pos);
                    } else {
                        assert(all[k + 1] == pos);
                    }
                }
            }
            assert forall|k: int| 0 <= k < self.free@.len() - 1 implies (
            #[trigger] self.indices@[self.free@[k]]).spec_index() == self.free@[k + 1] by {
                assert(known[k] == before.free@[k]);
                assert(known.contains(known[k]));
            }
            assert forall|k: int| 0 <= k < chain.len() - 1 implies (
            #[trigger] self.indices@[chain[k]]).spec_index() == chain[k + 1] by {
                if k > 0 {
                    assert(chain[k] == pending[k - 1]);
                    assert(chain[k + 1] == pending[k]);
                    assert(known[m + k - 1] == pending[k - 1]);
                    assert(known.contains(known[m + k - 1]));
                    assert(before.indices@[pending[k - 1]].spec_index() == pending[k]);
                } else {
                    assert(chain[1] == pending[0]);
                }
            }
            assert forall|pos: int| 0 <= pos < self.indices@.len() implies (self.dead(pos)
                <==> #[trigger] self.value_at(pos) is None) by {
                if pos != idx {
                    assert(before.dead(pos) <==> before.value_at(pos) is None);
                    assert(self.dead(pos) <==> before.dead(pos));
                    assert(self.value_at(pos) == before.value_at(pos));
                }
            }
        }
        value
    }

    /// Appends the chain `pending` of freed slots to the free list. The chain
    /// starts at `head` and ends at `tail`.
    fn splice_free(&mut self, head: usize, tail: usize, count: usize, Ghost(pending): Ghost<Seq<int>>)
        requires
            old(self).inv(pending),
            pending.len() == count,
            count > 0,
            head == pending[0],
            tail == pending.last(),
        ensures
            final(self).wf(),
            final(self).free_list() == old(self).free_list() + pending,
            final(self).agrees_except(old(self), -1),
    {
        let ghost before = *self;
        let ghost all = self.free@ + pending;
        assert(all[self.free@.len() as int] == pending[0]);
        assert(all[all.len() - 1] == pending.last());
        if self.free_list_size > 0 {
            let t = self.free_list_tail;
            assert(all[self.free@.len() - 1] == t);
            let stored = self.indices[t];
            let generation = stored.generation();
            let next = I::Index::from_usize(head).unwrap();
            let handle = I::from_raw_parts(next, generation);
            proof {
                stored.lemma_parts_in_range();
                I::lemma_round_trip(next, generation);
                assert(t != head) by {
                    assert(all[self.free@.len() - 1] != all[self.free@.len() as int]);
                }
            }
            self.indices[t] = handle;
            proof {
                assert forall|pos: int| 0 <= pos < self.indices@.len() implies (self.dead(pos)
                    <==> before.dead(pos)) && self.value_at(pos) == before.value_at(pos) by {}
                assert forall|k: int| 0 <= k < before.free@.len() - 1 implies (
                #[trigger] self.indices@[before.free@[k]]).spec_index() == before.free@[k + 1] by {
                    assert(all[k] == before.free@[k]);
                    assert(all[k] != all[before.free@.len() - 1]);
                }
                assert forall|k: int| 0 <= k < pending.len() - 1 implies (
                #[trigger] self.indices@[pending[k]]).spec_index() == pending[k + 1] by {
                    assert(all[before.free@.len() + k] == pending[k]);
                    assert(all[before.free@.len() + k] != all[before.free@.len() - 1]);
                }
            }
        } else {
            self.free_list_head = head;
        }
        self.free_list_tail = tail;
        assert(self.indices@.len() == self.indices.len());
        self.free_list_size = self.free_list_size + count;
        self.free = Ghost(all);
        proof {
            assert(self.free@ + Seq::<int>::empty() =~= all);
            assert forall|k: int| 0 <= k < all.len() - 1 implies (
            #[trigger] self.indices@[all[k]]).spec_index() == all[k + 1] by {
                if k < before.free@.len() - 1 {
                    assert(all[k] == before.free@[k]);
                    assert(all[k + 1] == before.free@[k + 1]);
                } else if k == before.free@.len() - 1 {
                    assert(all[k + 1] == pending[0]);
                } else {
                    assert(all[k] == pending[k - before.free@.len()]);
                    assert(all[k + 1] == pending[k - before.free@.len() + 1]);
                }
            }
            assert forall|pos: int| 0 <= pos < self.indices@.len() implies (self.dead(pos)
                <==> before.dead(pos)) && self.value_at(pos) == before.value_at(pos)
                && self.generation_at(pos) == before.generation_at(pos) by {}
            assert forall|k: int| 0 <= k < all.len() implies 0 <= #[trigger] all[k]
                < self.indices@.len() && self.dead(all[k]) by {
                assert(before.dead(all[k]));
            }
            assert forall|pos: int| 0 <= pos < self.indices@.len() && #[trigger] self.dead(
                pos,
            ) implies all.contains(pos) by {
                assert(before.dead(pos));
            }
            assert forall|pos: int| 0 <= pos < self.indices@.len() implies (self.dead(pos)
                <==> #[trigger] self.value_at(pos) is None) by {
                assert(before.dead(pos) <==> before.value_at(pos) is None);
                assert(self.dead(pos) <==> before.dead(pos));
                assert(self.value_at(pos) == before.value_at(pos));
            }
        }
    }

    /// Removes the value that `key` refers to and returns it. The slot goes to
    /// the end of the free list and keeps its generation until it is reused.
    /// Where `key` is not the handle of a live slot, nothing changes and the
    /// result is `None`.
    pub fn remove(&mut self, key: &I) -> (r: Option<T>)
        requires
            old(self).wf(),
        ensures
            final(self).wf(),
            final(self).is_remove_of(old(self), *key, r),
    {
        let idx = match key.index().to_usize() {
            Some(idx) => idx,
            None => {
                assert(self.indices@.len() == self.indices.len());
                return None;
            },
        };
        if idx >= self.indices.len() {
            return None;
        }
        if !self.indices[idx].same(key) {
            proof {
                if self.value_at(idx as int) is Some {
                    assert(!self.dead(idx as int));
                }
            }
            return None;
        }
        proof {
            I::Index::lemma_max_at_least_two();
            assert(!self.dead(idx as int));
        }
        let marker: usize = if idx == 0 {
            1
        } else {
            0
        };
        let value = self.retire(idx, marker, Ghost(Seq::empty()));
        let ghost pending = seq![idx as int];
        proof {
            assert(seq![idx as int] + Seq::<int>::empty() =~= pending);
            assert(old(self).free@.push(idx as int) =~= old(self).free@ + pending);
        }
        self.splice_free(idx, idx, 1, Ghost(pending));
        value
    }

    /// Stores `value` and returns its handle. The first slot of the free list
    /// is reused, in its next generation; where the list is empty, a new slot
    /// is added in generation 1, and a new page where the last one is full.
    ///
    /// The map cannot grow beyond the positions that the handle's index type
    /// can name.
    pub fn push(&mut self, value: T) -> (r: I)
        requires
            old(self).wf(),
            N > 0,
            old(self).free_list().len() == 0 ==> old(self).slot_count() <= I::Index::max_nat(),
        ensures
            final(self).wf(),
            final(self).is_push_of(old(self), value, r),
    {
        let ghost before = *self;
        proof {
            assert(self.free@ + Seq::<int>::empty() =~= self.free@);
        }
        if self.free_list_size == 0 {
            let idx = self.indices.len();
            let handle = I::from_index(I::Index::from_usize(idx).unwrap());
            self.append_slot(handle, Some(value), Ghost(Seq::empty()));
            handle
        } else {
            let idx = self.free_list_head;
            assert(idx == before.free@[0]);
            assert((before.free@ + Seq::<int>::empty())[0] == idx);
            let stored = self.indices[idx];
            let next = match stored.index().to_usize() {
                Some(next) => next,
                None => 0,
            };
            proof {
                assert(self.indices@.len() == self.indices.len());
                if before.free@.len() > 1 {
                    assert(before.indices@[before.free@[0]].spec_index() == before.free@[1]);
                    assert((before.free@ + Seq::<int>::empty())[1] == before.free@[1]);
                    assert(next == before.free@[1]);
                }
            }
            self.free_list_head = next;
            self.free_list_size = self.free_list_size - 1;
            let advanced = stored.next_generation().generation();
            let position = I::Index::from_usize(idx).unwrap();
            let handle = I::from_raw_parts(position, advanced);
            proof {
                stored.lemma_parts_in_range();
                I::lemma_max_generation_bounds();
                I::lemma_round_trip(position, advanced);
                lemma_page_of(idx as int, N as int, self.pages@.len() as int);
            }
            self.indices[idx] = handle;
            self.free = Ghost(self.free@.drop_first());
            self.pages[idx / N][idx % N] = Some(value);
            proof {
                let rest = before.free@.drop_first();
                assert(self.free@ + Seq::<int>::empty() =~= rest);
                assert forall|pos: int| 0 <= pos < self.indices@.len() && pos != idx implies (
                self.dead(pos) <==> before.dead(pos)) && self.value_at(pos) == before.value_at(pos)
                    && self.generation_at(pos) == before.generation_at(pos) by {
                    lemma_page_of(pos, N as int, self.pages@.len() as int);
                    if pos / (N as int) == idx as int / (N as int) && pos % (N as int) == idx as int
                        % (N as int) {
                        lemma_page_and_offset_determine(pos, idx as int, N as int);
                    }
                }
                assert(!self.dead(idx as int));
                assert(self.value_at(idx as int) == Some(value));
                assert forall|p: int| 0 <= p < self.pages@.len() implies (
                #[trigger] self.pages@[p])@.len() == N by {
                    assert(before.pages@[p]@.len() == N);
                }
                assert forall|k: int| 0 <= k < rest.len() implies 0 <= #[trigger] rest[k]
                    < self.indices@.len() && self.dead(rest[k]) by {
                    assert(rest[k] == before.free@[k + 1]);
                    assert((before.free@ + Seq::<int>::empty())[k + 1] == rest[k]);
                    assert(before.free@[k + 1] != before.free@[0]);
                }
                assert(rest.no_duplicates()) by {
                    assert forall|i: int, j: int| 0 <= i < rest.len() && 0 <= j < rest.len() && i
                        != j implies rest[i] != rest[j] by {
                        assert(before.free@[i + 1] != before.free@[j + 1]);
                    }
                }
                assert forall|pos: int| 0 <= pos < self.indices@.len() && #[trigger] self.dead(
                    pos,
                ) implies rest.contains(pos) by {
                    assert(before.dead(pos));
                    assert((before.free@ + Seq::<int>::empty()).contains(pos));
                    let k = choose|k: int| 0 <= k < before.free@.len() && before.free@[k] == pos;
                    assert(rest[k - 1] == pos);
                }
                assert forall|k: int| 0 <= k < rest.len() - 1 implies (
                #[trigger] self.indices@[rest[k]]).spec_index() == rest[k + 1] by {
                    assert(rest[k] == before.free@[k + 1]);
                    assert(before.free@[k + 1] != before.free@[0]);
                    assert(before.indices@[before.free@[k + 1]].spec_index() == before.free@[k + 2]);
                }
                if rest.len() > 0 {
                    assert(before.indices@[before.free@[0]].spec_index() == before.free@[1]);
                    assert((before.free@ + Seq::<int>::empty())[1] == rest[0]);
                    assert(rest.last() == before.free@.last());
                }
                assert forall|pos: int| 0 <= pos < self.indices@.len() implies (self.dead(pos)
                    <==> #[trigger] self.value_at(pos) is None) by {
                    if pos != idx {
                        assert(before.dead(pos) <==> before.value_at(pos) is None);
                        assert(self.dead(pos) <==> before.dead(pos));
                        assert(self.value_at(pos) == before.value_at(pos));
                    }
                }
                assert(self.wf());
            }
            handle
        }
    }

    /// Returns a mutable reference to the value that `key` refers to, or
    /// `None` where `key` is not the handle of a live slot. What the caller
    /// writes through the reference becomes the value of the slot; nothing
    /// else changes.
    pub fn get_mut(&mut self, key: &I) -> (r: Option<&mut T>)
        requires
            old(self).wf(),
        ensures
            final(self).wf(),
            final(self).free_list() == old(self).free_list(),
            final(self).agrees_except(old(self), key.spec_index() as int),
            old(self).contains(*key) ==> r is Some && Some(*r.unwrap()) == old(self).value_at(
                key.spec_index() as int,
            ) && final(self).value_at(key.spec_index() as int) == Some(*final(r.unwrap()))
                && final(self).generation_at(key.spec_index() as int) == key.spec_generation(),
            !old(self).contains(*key) ==> r is None && final(self).agrees(old(self)),
    {
        let idx = match key.index().to_usize() {
            Some(idx) => idx,
            None => {
                assert(self.indices@.len() == self.indices.len());
                return None;
            },
        };
        if idx >= self.indices.len() {
            return None;
        }
        if !self.indices[idx].same(key) {
            proof {
                if self.value_at(idx as int) is Some {
                    assert(!self.dead(idx as int));
                }
            }
            return None;
        }
        proof {
            lemma_page_of(idx as int, N as int, self.pages@.len() as int);
            assert(!self.dead(idx as int));
            assert(self.value_at(idx as int) is Some);
        }
        let ghost before = *self;
        proof {
            assert forall|after: Self| before.only_value_differs(&after, idx as int) implies (
            #[trigger] after.wf()) && after.free_list() == before.free_list()
                && after.agrees_except(&before, idx as int) && after.generation_at(idx as int)
                == before.generation_at(idx as int) by {
                before.lemma_value_replaced(after, idx as int);
            }
        }
        let page: &mut Vec<Option<T>> = &mut self.pages[idx / N];
        let slot: &mut Option<T> = &mut page[idx % N];
        slot.as_mut()
    }

    /// Keeps the values for which `f` returns `true` and removes the others.
    ///
    /// `f` is called once for every live slot, in the order of the positions,
    /// with the slot's handle and a mutable reference to its value; what it
    /// leaves in a value that it keeps stays there. The freed slots are
    /// appended to the free list together, the one of the highest position
    /// first.
    pub fn retain<F: FnMut(&I, &mut T) -> bool>(&mut self, f: F)
        requires
            old(self).wf(),
            forall|k: &I, v: &mut T| call_requires(f, (k, v)),
        ensures
            final(self).wf(),
            final(self).slot_count() == old(self).slot_count(),
            forall|p: int|
                0 <= p < old(self).slot_count() ==> final(self).generation_at(p) == old(self).generation_at(p),
            forall|p: int|
                0 <= p < old(self).slot_count()
                    && old(self).value_at(p) is None ==> final(self).value_at(p) is None,
            forall|p: int|
                0 <= p < old(self).slot_count() && old(self).value_at(p) is Some ==> exists|
                    k: &I,
                    v: &mut T,
                    keep: bool,
                |
                    k.spec_index() == p && k.spec_generation() == old(self).generation_at(p) && *v
                        == old(self).value_at(p).unwrap() && #[trigger] call_ensures(
                        f,
                        (k, v),
                        keep,
                    ) && final(self).value_at(p) == (if keep {
                        Some(*final(v))
                    } else {
                        None
                    }),
            old(self).free_list().is_prefix_of(final(self).free_list()),
            forall|a: int, b: int|
                old(self).free_list().len() <= a < b < final(self).free_list().len() ==> final(self).free_list()[a] > final(self).free_list()[b],
    {
        let mut f = f;
        let ghost f0 = f;
        let ghost before = *self;
        let mut chain_head: usize = 0;
        let mut chain_tail: usize = 0;
        let mut removed: usize = 0;
        let ghost mut pending: Seq<int> = Seq::empty();
        let ghost mut done: Map<int, (T, bool)> = Map::empty();
        let mut i: usize = 0;
        while i < self.indices.len()
            invariant
                f == f0,
                forall|k: &I, v: &mut T| call_requires(f, (k, v)),
                before.wf(),
                self.inv(pending),
                self.free@ == before.free@,
                self.indices@.len() == before.indices@.len(),
                i <= self.indices@.len(),
                pending.len() == removed,
                removed <= i,
                removed > 0 ==> chain_head == pending[0] && chain_tail == pending.last(),
                forall|a: int| 0 <= a < pending.len() ==> 0 <= #[trigger] pending[a] < i,
                forall|a: int, b: int| 0 <= a < b < pending.len() ==> pending[a] > pending[b],
                forall|p: int|
                    0 <= p < before.indices@.len() ==> self.generation_at(p)
                        == before.generation_at(p),
                forall|p: int|
                    i <= p < before.indices@.len() ==> self.value_at(p) == before.value_at(p)
                        && (self.dead(p) <==> before.dead(p)),
                forall|p: int|
                    0 <= p < i && before.value_at(p) is None ==> self.value_at(p) is None,
                forall|p: int| #[trigger]
                    done.contains_key(p) ==> exists|k: &I, v: &mut T|
                        k.spec_index() == p && k.spec_generation() == before.generation_at(p) && *v
                            == before.value_at(p).unwrap() && *final(v) == done[p].0
                            && #[trigger] call_ensures(f0, (k, v), done[p].1),
                forall|p: int|
                    0 <= p < i && before.value_at(p) is Some ==> done.contains_key(p)
                        && #[trigger] self.value_at(p) == (if done[p].1 {
                        Some(done[p].0)
                    } else {
                        None
                    }),
            decreases self.indices@.len() - i,
        {
            let ghost at_start = *self;
            let ghost start_done = done;
            let stored = self.indices[i];
            let live = match stored.index().to_usize() {
                Some(p) => p == i,
                None => false,
            };
            let ghost mut after_call: Option<T> = None;
            let ghost mut kept = true;
            if live {
                proof {
                    assert(!self.dead(i as int));
                    lemma_page_of(i as int, N as int, self.pages@.len() as int);
                    assert(self.value_at(i as int) is Some);
                    assert forall|after: Self| at_start.only_value_differs(&after, i as int) implies (
                    #[trigger] after.inv(pending)) && after.agrees_except(&at_start, i as int)
                        && after.generation_at(i as int) == at_start.generation_at(i as int)
                        && !after.dead(i as int) && after.value_at(i as int)
                        == after.pages@[i as int / (N as int)]@[i as int % (N as int)] by {
                        at_start.lemma_value_replaced_in(after, i as int, pending);
                    }
                }
                let mut keep = true;
                match &mut self.pages[i / N][i % N] {
                    Some(v) => {
                        let ghost given = *v;
                        keep = f(&stored, v);
                        proof {
                            after_call = Some(*v);
                            kept = keep;
                            assert(given == before.value_at(i as int).unwrap());
                            assert(exists|k: &I, x: &mut T|
                                k.spec_index() == i && k.spec_generation() == before.generation_at(
                                    i as int,
                                ) && *x == given && *final(x) == after_call.unwrap()
                                    && #[trigger] call_ensures(f0, (k, x), keep));
                        }
                    },
                    None => {},
                }
                assert(at_start.only_value_differs(self, i as int));
                assert(self.inv(pending));
                assert(self.value_at(i as int) == after_call);
                let ghost mid = *self;
                proof {
                    assert forall|p: int| 0 <= p < self.indices@.len()
                        && p != i implies mid.value_at(
                        p,
                    ) == at_start.value_at(p)
                        && mid.generation_at(p) == at_start.generation_at(p) by {}
                }
                if !keep {
                    proof {
                        I::Index::lemma_max_at_least_two();
                        assert(self.indices@.len() == self.indices.len());
                    }
                    let link: usize = if removed > 0 {
                        chain_head
                    } else if i == 0 {
                        1
                    } else {
                        0
                    };
                    let _ = self.retire(i, link, Ghost(pending));
                    proof {
                        assert forall|p: int| 0 <= p < self.indices@.len()
                            && p != i implies self.value_at(
                            p,
                        ) == mid.value_at(p) && self.generation_at(p) == mid.generation_at(p) by {}
                    }
                    chain_head = i;
                    if removed == 0 {
                        chain_tail = i;
                    }
                    removed = removed + 1;
                    proof {
                        let longer = seq![i as int] + pending;
                        assert(longer.last() == (if pending.len() > 0 {
                            pending.last()
                        } else {
                            i as int
                        }));
                        assert forall|a: int, b: int| 0 <= a < b < longer.len() implies longer[a]
                            > longer[b] by {
                            if a > 0 {
                                assert(longer[a] == pending[a - 1]);
                            }
                            assert(longer[b] == pending[b - 1]);
                        }
                        assert forall|a: int| 0 <= a < longer.len() implies 0 <= #[trigger] longer[a]
                            < i + 1 by {
                            if a > 0 {
                                assert(longer[a] == pending[a - 1]);
                            }
                        }
                        pending = longer;
                    }
                }
            } else {
                proof {
                    assert(self.dead(i as int));
                    assert(self.value_at(i as int) is None);
                }
            }
            proof {
                assert forall|p: int| 0 <= p < self.indices@.len()
                    && p != i implies self.value_at(p)
                    == at_start.value_at(p) && self.generation_at(p) == at_start.generation_at(p)
                        && (
                self.dead(p) <==> at_start.dead(p)) by {
                    assert(self.dead(p) <==> self.value_at(p) is None);
                    assert(at_start.dead(p) <==> at_start.value_at(p) is None);
                }
                if live {
                    done = done.insert(i as int, (after_call.unwrap(), kept));
                }
                assert forall|p: int| #[trigger] done.contains_key(p) implies exists|
                    k: &I,
                    v: &mut T,
                |
                    k.spec_index() == p && k.spec_generation() == before.generation_at(p) && *v
                        == before.value_at(p).unwrap() && *final(v) == done[p].0
                        && #[trigger] call_ensures(f0, (k, v), done[p].1) by {
                    if live && p == i {
                        let (k, x) = choose|k: &I, x: &mut T|
                            k.spec_index() == i && k.spec_generation() == before.generation_at(
                                i as int,
                            ) && *x == before.value_at(i as int).unwrap() && *final(x)
                                == after_call.unwrap() && #[trigger] call_ensures(f0, (k, x), kept);
                        assert(call_ensures(f0, (k, x), done[p].1));
                    } else {
                        assert(start_done.contains_key(p));
                        assert(done[p] == start_done[p]);
                    }
                }
                assert forall|p: int| 0 <= p < i + 1
                    && before.value_at(p) is Some implies done.contains_key(
                    p,
                ) && #[trigger] self.value_at(p) == (if done[p].1 {
                    Some(done[p].0)
                } else {
                    None
                }) by {
                    if p < i {
                        assert(self.value_at(p) == at_start.value_at(p));
                        assert(start_done.contains_key(p));
                        assert(done[p] == start_done[p]);
                    } else {
                        assert(live);
                    }
                }
                assert forall|p: int| 0 <= p < i + 1
                    && before.value_at(p) is None implies self.value_at(
                    p,
                ) is None by {
                    if p < i {
                        assert(self.value_at(p) == at_start.value_at(p));
                    }
                }
            }
            i += 1;
        }
        let ghost walked = *self;
        if removed > 0 {
            self.splice_free(chain_head, chain_tail, removed, Ghost(pending));
            proof {
                let joined = before.free@ + pending;
                assert(before.free@.is_prefix_of(joined));
                assert forall|a: int, b: int| before.free@.len() <= a < b < joined.len() implies joined[a]
                    > joined[b] by {
                    assert(joined[a] == pending[a - before.free@.len()]);
                    assert(joined[b] == pending[b - before.free@.len()]);
                }
            }
        } else {
            proof {
                assert(pending =~= Seq::<int>::empty());
            }
        }
        proof {
            assert forall|p: int|
                0 <= p < before.slot_count() && before.value_at(p) is Some implies exists|
                k: &I,
                v: &mut T,
                keep: bool,
            |
                k.spec_index() == p && k.spec_generation() == before.generation_at(p) && *v
                    == before.value_at(p).unwrap() && #[trigger] call_ensures(f0, (k, v), keep)
                    && self.value_at(p) == (if keep {
                    Some(*final(v))
                } else {
                    None
                }) by {
                assert(self.value_at(p) == walked.value_at(p));
                assert(done.contains_key(p));
                let (k, v) = choose|k: &I, v: &mut T|
                    k.spec_index() == p && k.spec_generation() == before.generation_at(p) && *v
                        == before.value_at(p).unwrap() && *final(v) == done[p].0
                        && #[trigger] call_ensures(f0, (k, v), done[p].1);
                assert(call_ensures(f0, (k, v), done[p].1));
            }
            assert forall|p: int|
                0 <= p < before.slot_count() && before.value_at(p) is None implies self.value_at(
                p,
            ) is None by {
                assert(self.value_at(p) == walked.value_at(p));
            }
        }
    }

    /// Returns the number of slots that the map can hold before its index
    /// array has to grow.
    pub fn capacity(&self) -> (c: usize)
        ensures
            c >= self.slot_count(),
    {
        crate::capacity::vec_capacity(&self.indices)
    }

    /// Makes room for at least `additional` more values: whole pages for
    /// those that the free slots cannot take. The contents do not change.
    pub fn reserve(&mut self, additional: usize)
        requires
            old(self).wf(),
            N > 0,
            additional > old(self).free_list().len() ==> additional - old(self).free_list().len()
                + N - 1 <= usize::MAX,
        ensures
            final(self).wf(),
            final(self).agrees(old(self)),
    {
        let ghost before = *self;
        if additional > self.free_list_size {
            let need = additional - self.free_list_size;
            let additional_pages = if need % N == 0 {
                need / N
            } else {
                need / N + 1
            };
            proof {
                let n = N as int;
                vstd::arithmetic::div_mod::lemma_fundamental_div_mod(need as int, n);
                vstd::arithmetic::div_mod::lemma_mod_bound(need as int, n);
                assert(additional_pages * n <= need + n - 1) by (nonlinear_arith)
                    requires
                        need == n * (need as int / n) + need as int % n,
                        0 <= need as int % n < n,
                        additional_pages == need as int / n + (if need as int % n == 0 {
                            0int
                        } else {
                            1int
                        }),
                ;
                assert(0 <= additional_pages * n) by (nonlinear_arith)
                    requires
                        0 <= additional_pages,
                        0 < n,
                ;
            }
            self.indices.reserve(additional_pages * N);
            self.pages.reserve(additional_pages);
        }
        proof {
            assert(self.pages@ == before.pages@);
            assert(self.indices@ == before.indices@);
            assert forall|pos: int| 0 <= pos < self.indices@.len() implies (self.dead(pos)
                <==> #[trigger] self.value_at(pos) is None) by {
                assert(before.dead(pos) <==> before.value_at(pos) is None);
            }
            assert forall|pos: int| 0 <= pos < self.indices@.len() && #[trigger] self.dead(
                pos,
            ) implies (self.free@ + Seq::<int>::empty()).contains(pos) by {
                assert(before.dead(pos));
            }
            assert forall|k: int| 0 <= k < (self.free@ + Seq::<int>::empty()).len() implies 0 <= (
            #[trigger] (self.free@ + Seq::<int>::empty())[k]) < self.indices@.len() && self.dead(
                (self.free@ + Seq::<int>::empty())[k],
            ) by {
                assert(before.dead((before.free@ + Seq::<int>::empty())[k]));
            }
        }
    }

    /// Returns the handles and the values of the live slots, in the order of
    /// the positions.
    pub fn iter(&self) -> (r: Vec<(&I, &T)>)
        requires
            self.wf(),
        ensures
            self.lists(entries_of(r@)),
            r@.len() == self.spec_len(),
    {
        let mut out: Vec<(&I, &T)> = Vec::new();
        let mut i: usize = 0;
        while i < self.indices.len()
            invariant
                self.wf(),
                i <= self.indices@.len(),
                self.lists_below(entries_of(out@), i as int),
            decreases self.indices@.len() - i,
        {
            let ghost listed = entries_of(out@);
            let stored = &self.indices[i];
            let live = match stored.index().to_usize() {
                Some(p) => p == i,
                None => false,
            };
            if live {
                proof {
                    assert(!self.dead(i as int));
                    lemma_page_of(i as int, N as int, self.pages@.len() as int);
                    assert(self.value_at(i as int) is Some);
                }
                match &self.pages[i / N][i % N] {
                    Some(v) => {
                        out.push((stored, v));
                        proof {
                            let longer = entries_of(out@);
                            assert(longer =~= listed.push((*stored, *v)));
                            self.lemma_lists_live(listed, i as int, (*stored, *v));
                        }
                    },
                    None => {},
                }
            } else {
                proof {
                    assert(self.dead(i as int));
                    assert(self.value_at(i as int) is None);
                    self.lemma_lists_free(listed, i as int);
                }
            }
            i += 1;
        }
        proof {
            self.lemma_listed_count(entries_of(out@));
        }
        out
    }

    /// Returns the handle and a mutable reference to the value of every live
    /// slot, in the order of the positions. What the caller writes through a
    /// reference becomes the value of that slot; nothing else changes.
    #[verifier::loop_isolation(false)]
    pub fn iter_mut(&mut self) -> (r: Vec<(&I, &mut T)>)
        requires
            old(self).wf(),
        ensures
            old(self).lists(Seq::new(r@.len(), |j: int| (*r@[j].0, *r@[j].1))),
            r@.len() == old(self).spec_len(),
            final(self).wf(),
            final(self).free_list() == old(self).free_list(),
            final(self).slot_count() == old(self).slot_count(),
            forall|p: int|
                0 <= p < old(self).slot_count() ==> final(self).generation_at(p) == old(self).generation_at(p),
            forall|j: int|
                0 <= j < r@.len() ==> final(self).value_at((#[trigger] r@[j]).0.spec_index() as int)
                    == Some(*final(r@[j].1)),
            forall|p: int|
                0 <= p < old(self).slot_count() && old(self).value_at(p) is None
                    ==> #[trigger] final(self).value_at(p) is None,
    {
        let ghost before = *self;
        let ghost size = N as int;
        proof {
            assert(before.free@ + Seq::<int>::empty() =~= before.free@);
            assert forall|after: Self| before.same_shape(&after) implies #[trigger] after.wf() by {
                before.lemma_same_shape(after);
            }
        }
        let indices = &self.indices;
        let n = indices.len();
        let pages = &mut self.pages;
        let ghost g_pages = pages;
        let page_refs = each_mut(pages);
        let ghost all_pages = page_refs@;
        let total = page_refs.len();
        let mut stack = page_refs.rev();
        let mut out: Vec<(&I, &mut T)> = Vec::new();
        let mut base: usize = 0;
        let mut q: usize = 0;
        while q < total
            invariant
                q <= total,
                total == all_pages.len(),
                stack@.len() == total - q,
                forall|k: int| 0 <= k < stack@.len() ==> #[trigger] stack@[k] == all_pages[total - 1 - k],
                base <= n,
                base == (if q * size < n {
                    q * size
                } else {
                    n as int
                }),
                forall|k: int| 0 <= k < q ==> final(#[trigger] all_pages[k])@.len() == size,
                forall|pos: int|
                    0 <= pos < base
                        && #[trigger] before.value_at(pos) is None ==> final(all_pages[pos / size])@[pos % size] is None,
                forall|j: int|
                    0 <= j < out@.len() ==> 0 <= (#[trigger] out@[j]).0.spec_index() < base
                        && *out@[j].0 == before.indices@[out@[j].0.spec_index() as int] && Some(
                        *out@[j].1,
                    ) == before.value_at(out@[j].0.spec_index() as int)
                        && final(all_pages[out@[j].0.spec_index() as int / size])@[out@[j].0.spec_index() as int % size] == Some(*final(out@[j].1)),
                forall|a: int, b: int|
                    0 <= a < b < out@.len() ==> (#[trigger] out@[a]).0.spec_index() < (
                    #[trigger] out@[b]).0.spec_index(),
                forall|pos: int|
                    0 <= pos < base && #[trigger] before.value_at(pos) is Some ==> exists|j: int|
                        0 <= j < out@.len() && (#[trigger] out@[j]).0.spec_index() == pos,
            decreases total - q,
        {
            let ghost done = out@;
            let ghost old_base = base as int;
            let page = stack.pop().unwrap();
            let ghost g_page = page;
            let count = if n - base < N {
                n - base
            } else {
                N
            };
            proof {
                assert(g_page == all_pages[q as int]);
                assert(*g_page == before.pages@[q as int]);
                assert(before.pages@[q as int]@.len() == N);
                if count > 0 {
                    assert(base == q * size);
                    assert forall|o: int| 0 <= o < count implies (#[trigger] g_page@[o] is Some
                        ==> before.indices@[base + o].spec_index() == base + o) by {
                        vstd::arithmetic::div_mod::lemma_fundamental_div_mod_converse(
                            base + o,
                            size,
                            q as int,
                            o,
                        );
                        assert(before.value_at(base + o) == g_page@[o]);
                        assert(before.dead(base + o) <==> before.value_at(base + o) is None);
                    }
                }
            }
            let mut part = page_iter_mut(indices, page, base, count);
            let ghost g_part = part@;
            out.append(&mut part);
            base = base + count;
            q += 1;
            proof {
                assert((q - 1) * size + size == q * size) by (nonlinear_arith);
                assert(0 <= (q - 1) * size) by (nonlinear_arith)
                    requires
                        q >= 1,
                        size >= 0,
                ;
                assert forall|k: int| 0 <= k < q implies final(#[trigger] all_pages[k])@.len()
                    == size by {}
                assert forall|j: int| 0 <= j < out@.len() implies 0 <= (
                #[trigger] out@[j]).0.spec_index() < base && *out@[j].0
                    == before.indices@[out@[j].0.spec_index() as int] && Some(*out@[j].1)
                    == before.value_at(out@[j].0.spec_index() as int)
                        && final(all_pages[out@[j].0.spec_index() as int / size])@[out@[j].0.spec_index() as int % size] == Some(*final(out@[j].1)) by {
                    if j < done.len() {
                        assert(out@[j] == done[j]);
                    } else {
                        let e = g_part[j - done.len()];
                        assert(out@[j] == e);
                        let pos = e.0.spec_index() as int;
                        assert(old_base <= pos < old_base + count);
                        vstd::arithmetic::div_mod::lemma_fundamental_div_mod_converse(
                            pos,
                            size,
                            q - 1,
                            pos - old_base,
                        );
                        assert(before.value_at(pos) == (*g_page)@[pos - old_base]);
                    }
                }
                assert forall|a: int, b: int| 0 <= a < b < out@.len() implies (
                #[trigger] out@[a]).0.spec_index() < (#[trigger] out@[b]).0.spec_index() by {
                    if b < done.len() {
                        assert(out@[a] == done[a] && out@[b] == done[b]);
                    } else if a < done.len() {
                        assert(out@[a] == done[a]);
                        assert(out@[b] == g_part[b - done.len()]);
                    } else {
                        assert(out@[a] == g_part[a - done.len()]);
                        assert(out@[b] == g_part[b - done.len()]);
                    }
                }
                assert forall|pos: int|
                    0 <= pos < base
                        && #[trigger] before.value_at(pos) is Some implies exists|j: int|
                    0 <= j < out@.len() && (#[trigger] out@[j]).0.spec_index() == pos by {
                    if pos < old_base {
                        let j = choose|j: int|
                            0 <= j < done.len() && (#[trigger] done[j]).0.spec_index() == pos;
                        assert(out@[j] == done[j]);
                    } else {
                        vstd::arithmetic::div_mod::lemma_fundamental_div_mod_converse(
                            pos,
                            size,
                            q - 1,
                            pos - old_base,
                        );
                        assert(before.value_at(pos) == (*g_page)@[pos - old_base]);
                        assert((*g_page)@[pos - old_base] is Some);
                        let j = choose|j: int|
                            0 <= j < g_part.len() && (#[trigger] g_part[j]).0.spec_index()
                                == old_base + (pos - old_base);
                        assert(out@[done.len() + j] == g_part[j]);
                    }
                }
                assert forall|pos: int|
                    0 <= pos < base
                        && #[trigger] before.value_at(pos) is None implies final(all_pages[pos / size])@[pos % size] is None by {
                    if pos >= old_base {
                        vstd::arithmetic::div_mod::lemma_fundamental_div_mod_converse(
                            pos,
                            size,
                            q - 1,
                            pos - old_base,
                        );
                        assert(before.value_at(pos) == (*g_page)@[pos - old_base]);
                        assert(final(g_page)@[pos - old_base] is None);
                    }
                }
            }
        }
        proof {
            let shown = Seq::new(out@.len(), |j: int| (*out@[j].0, *out@[j].1));
            assert(base == n) by {
                assert(n <= total * size);
            }
            assert forall|j: int| 0 <= j < shown.len() implies {
                let pos = (#[trigger] shown[j]).0.spec_index() as int;
                &&& pos < before.slot_count()
                &&& shown[j].0.spec_generation() == before.generation_at(pos)
                &&& before.value_at(pos) == Some(shown[j].1)
            } by {
                assert(0 <= out@[j].0.spec_index() < base);
            }
            assert forall|a: int, b: int| 0 <= a < b < shown.len() implies (
            #[trigger] shown[a]).0.spec_index() < (#[trigger] shown[b]).0.spec_index() by {
                assert(out@[a].0.spec_index() < out@[b].0.spec_index());
            }
            assert forall|pos: int|
                0 <= pos < before.slot_count()
                    && #[trigger] before.value_at(pos) is Some implies exists|
                j: int,
            |
                0 <= j < shown.len() && (#[trigger] shown[j]).0.spec_index() == pos by {
                let j = choose|j: int|
                    0 <= j < out@.len() && (#[trigger] out@[j]).0.spec_index() == pos;
                assert(shown[j].0.spec_index() == pos);
            }
            before.lemma_listed_count(shown);
            assert(final(g_pages)@.len() == total);
            assert forall|k: int| 0 <= k < total implies (#[trigger] final(g_pages)@[k])
                == *final(all_pages[k]) by {}
            assert forall|pos: int| 0 <= pos < n implies 0 <= pos / size < total && (
            #[trigger] before.value_at(pos) is None ==> final(g_pages)@[pos / size]@[pos % size] is None)
                && (before.value_at(pos) is Some ==> final(g_pages)@[pos / size]@[pos % size] is Some) by {
                lemma_page_of(pos, size, total as int);
                assert(final(g_pages)@[pos / size] == *final(all_pages[pos / size]));
                if before.value_at(pos) is Some {
                    let j = choose|j: int|
                        0 <= j < out@.len() && (#[trigger] out@[j]).0.spec_index() == pos;
                    assert(final(all_pages[pos / size])@[pos % size] == Some(*final(out@[j].1)));
                }
            }
            assert forall|j: int| 0 <= j < out@.len() implies final(g_pages)@[(
            #[trigger] out@[j]).0.spec_index() as int / size]@[out@[j].0.spec_index() as int % size]
                == Some(*final(out@[j].1)) by {
                let pos = out@[j].0.spec_index() as int;
                lemma_page_of(pos, size, total as int);
                assert(final(g_pages)@[pos / size] == *final(all_pages[pos / size]));
            }
        }
        out
    }

    /// Whether `after` has the stored handles and the free list of `self`,
    /// pages of the same number and size, and a value in the same slots.
    spec fn same_shape(&self, after: &Self) -> bool {
        &&& after.indices@ == self.indices@
        &&& after.free@ == self.free@
        &&& after.free_list_head == self.free_list_head
        &&& after.free_list_tail == self.free_list_tail
        &&& after.free_list_size == self.free_list_size
        &&& after.pages@.len() == self.pages@.len()
        &&& forall|p: int| 0 <= p < after.pages@.len() ==> (#[trigger] after.pages@[p])@.len() == N
        &&& forall|pos: int|
            0 <= pos < self.indices@.len() ==> (#[trigger] after.value_at(pos) is None
                <==> self.value_at(pos) is None)
    }

    /// Takes the map apart and returns the handles and the values of the live
    /// slots, in the order of the positions.
    pub fn into_iter(self) -> (r: Vec<(I, T)>)
        requires
            self.wf(),
        ensures
            self.lists(r@),
            r@.len() == self.spec_len(),
    {
        let mut map = self;
        let mut out: Vec<(I, T)> = Vec::new();
        let mut i: usize = 0;
        while i < map.indices.len()
            invariant
                self.wf(),
                map.indices == self.indices,
                map.pages@.len() == self.pages@.len(),
                forall|p: int| 0 <= p < map.pages@.len() ==> (#[trigger] map.pages@[p])@.len() == N,
                forall|p: int| i <= p < self.indices@.len() ==> map.value_at(p) == self.value_at(p),
                i <= self.indices@.len(),
                self.lists_below(out@, i as int),
            decreases self.indices@.len() - i,
        {
            let ghost listed = out@;
            let ghost at_start = map;
            let stored = map.indices[i];
            let live = match stored.index().to_usize() {
                Some(p) => p == i,
                None => false,
            };
            if live {
                proof {
                    assert(!self.dead(i as int));
                    lemma_page_of(i as int, N as int, self.pages@.len() as int);
                    assert(self.value_at(i as int) is Some);
                }
                match map.pages[i / N][i % N].take() {
                    Some(v) => {
                        out.push((stored, v));
                        proof {
                            self.lemma_lists_live(listed, i as int, (stored, v));
                        }
                    },
                    None => {},
                }
                proof {
                    assert forall|p: int| 0 <= p < map.pages@.len() implies (
                    #[trigger] map.pages@[p])@.len() == N by {
                        assert(at_start.pages@[p]@.len() == N);
                    }
                    assert forall|p: int| i < p < self.indices@.len() implies map.value_at(p)
                        == self.value_at(p) by {
                        lemma_page_of(p, N as int, self.pages@.len() as int);
                        assert(at_start.value_at(p) == self.value_at(p));
                        if p / (N as int) == i as int / (N as int) && p % (N as int) == i as int % (
                        N as int) {
                            lemma_page_and_offset_determine(p, i as int, N as int);
                        }
                    }
                }
            } else {
                proof {
                    assert(self.dead(i as int));
                    assert(self.value_at(i as int) is None);
                    self.lemma_lists_free(listed, i as int);
                }
            }
            i += 1;
        }
        proof {
            self.lemma_listed_count(out@);
        }
        out
    }

    /// Whether `entries` lists the live slots below position `bound`, each
    /// with its handle, in the order of the positions.
    pub open spec fn lists_below(&self, entries: Seq<(I, T)>, bound: int) -> bool {
        &&& forall|j: int|
            0 <= j < entries.len() ==> {
                let pos = (#[trigger] entries[j]).0.spec_index() as int;
                &&& pos < bound
                &&& pos < self.slot_count()
                &&& entries[j].0.spec_generation() == self.generation_at(pos)
                &&& self.value_at(pos) == Some(entries[j].1)
            }
        &&& forall|a: int, b: int|
            0 <= a < b < entries.len() ==> (#[trigger] entries[a]).0.spec_index() < (
            #[trigger] entries[b]).0.spec_index()
        &&& forall|pos: int|
            0 <= pos < bound && pos < self.slot_count() && #[trigger] self.value_at(pos) is Some
                ==> exists|j: int|
                0 <= j < entries.len() && (#[trigger] entries[j]).0.spec_index() == pos
    }

    /// Whether `entries` lists all live slots, each with its handle, in the
    /// order of the positions.
    pub open spec fn lists(&self, entries: Seq<(I, T)>) -> bool {
        self.lists_below(entries, self.slot_count() as int)
    }

    /// A list of the live slots is as long as the map has live slots: the
    /// listed positions and those of the free list share out all positions.
    pub proof fn lemma_listed_count(&self, entries: Seq<(I, T)>)
        requires
            self.wf(),
            self.lists(entries),
        ensures
            entries.len() == self.spec_len(),
    {
        let n = self.slot_count() as int;
        let free = self.free_list();
        let live = Seq::new(entries.len(), |j: int| entries[j].0.spec_index() as int);
        self.lemma_free_list();
        assert(live.no_duplicates()) by {
            assert forall|a: int, b: int|
                0 <= a < live.len() && 0 <= b < live.len() && a != b implies live[a] != live[b] by {
                if a < b {
                    assert(entries[a].0.spec_index() < entries[b].0.spec_index());
                } else {
                    assert(entries[b].0.spec_index() < entries[a].0.spec_index());
                }
            }
        }
        live.unique_seq_to_set();
        free.unique_seq_to_set();
        vstd::set_lib::lemma_int_range(0, n);
        let range = vstd::set_lib::set_int_range(0, n);
        assert(live.to_set().disjoint(free.to_set())) by {
            assert forall|x: int| live.to_set().contains(x) implies !free.to_set().contains(x) by {
                let j = choose|j: int| 0 <= j < live.len() && live[j] == x;
                assert(self.value_at(entries[j].0.spec_index() as int) is Some);
                if free.to_set().contains(x) {
                    let k = choose|k: int| 0 <= k < free.len() && free[k] == x;
                    assert(self.value_at(free[k]) is None);
                }
            }
        }
        assert(live.to_set() + free.to_set() =~= range) by {
            assert forall|x: int| range.contains(x) implies (live.to_set() + free.to_set()).contains(
                x,
            ) by {
                if self.value_at(x) is Some {
                    let j = choose|j: int|
                        0 <= j < entries.len() && (#[trigger] entries[j]).0.spec_index() == x;
                    assert(live[j] == x);
                } else {
                    assert(free.contains(x));
                }
            }
            assert forall|x: int| (live.to_set() + free.to_set()).contains(x) implies range.contains(
                x,
            ) by {
                if live.to_set().contains(x) {
                    let j = choose|j: int| 0 <= j < live.len() && live[j] == x;
                    assert(entries[j].0.spec_index() < self.slot_count());
                } else {
                    let k = choose|k: int| 0 <= k < free.len() && free[k] == x;
                    assert(0 <= free[k] < self.slot_count());
                }
            }
        }
        vstd::set_lib::lemma_set_disjoint_lens(live.to_set(), free.to_set());
    }

    /// A list of the live slots below a free slot is also one of those up to it.
    proof fn lemma_lists_free(&self, entries: Seq<(I, T)>, pos: int)
        requires
            self.lists_below(entries, pos),
            0 <= pos < self.slot_count(),
            self.value_at(pos) is None,
        ensures
            self.lists_below(entries, pos + 1),
    {
        assert forall|p: int|
            0 <= p < pos + 1 && p < self.slot_count()
                && #[trigger] self.value_at(p) is Some implies exists|
            j: int,
        |
            0 <= j < entries.len() && (#[trigger] entries[j]).0.spec_index() == p by {
            assert(p < pos);
        }
    }

    /// A list of the live slots below a live slot, with that slot added, is
    /// one of those up to it.
    proof fn lemma_lists_live(&self, entries: Seq<(I, T)>, pos: int, entry: (I, T))
        requires
            self.lists_below(entries, pos),
            0 <= pos < self.slot_count(),
            entry.0.spec_index() == pos,
            entry.0.spec_generation() == self.generation_at(pos),
            self.value_at(pos) == Some(entry.1),
        ensures
            self.lists_below(entries.push(entry), pos + 1),
    {
        let longer = entries.push(entry);
        assert forall|j: int| 0 <= j < longer.len() implies {
            let at = (#[trigger] longer[j]).0.spec_index() as int;
            &&& at < pos + 1
            &&& at < self.slot_count()
            &&& longer[j].0.spec_generation() == self.generation_at(at)
            &&& self.value_at(at) == Some(longer[j].1)
        } by {
            if j < entries.len() {
                assert(longer[j] == entries[j]);
            }
        }
        assert forall|a: int, b: int| 0 <= a < b < longer.len() implies (
        #[trigger] longer[a]).0.spec_index() < (#[trigger] longer[b]).0.spec_index() by {
            assert(longer[a] == entries[a]);
            if b < entries.len() {
                assert(longer[b] == entries[b]);
            }
        }
        assert forall|p: int|
            0 <= p < pos + 1 && p < self.slot_count()
                && #[trigger] self.value_at(p) is Some implies exists|
            j: int,
        |
            0 <= j < longer.len() && (#[trigger] longer[j]).0.spec_index() == p by {
            if p < pos {
                let j = choose|j: int|
                    0 <= j < entries.len() && (#[trigger] entries[j]).0.spec_index() == p;
                assert(longer[j] == entries[j]);
            } else {
                assert(longer[entries.len() as int] == entry);
            }
        }
    }

    /// What is wrong with the slot at `pos` of a handle array and a value
    /// array, if anything: the position or the stored index is out of range,
    /// or the slot holds a value although its handle names another position.
    pub open spec fn slot_error(handles: Seq<I>, values: Seq<Option<T>>, pos: int) -> Option<
        RebuildError,
    > {
        if pos > I::Index::max_nat() || handles[pos].spec_index() > usize::MAX {
            Some(RebuildError::InvalidIndex)
        } else if values[pos] is Some && handles[pos].spec_index() != pos {
            Some(RebuildError::ValueInFreeSlot)
        } else {
            None
        }
    }

    /// Whether `self` is the map that the two arrays describe: slot by slot
    /// the generation of the handle and, where the handle names its own
    /// position, the value; the free slots form the free list, the highest
    /// position first.
    pub open spec fn is_built_from(&self, handles: Seq<I>, values: Seq<Option<T>>) -> bool {
        &&& self.slot_count() == handles.len()
        &&& forall|pos: int|
            0 <= pos < handles.len() ==> self.generation_at(pos) == (
            #[trigger] handles[pos]).spec_generation()
        &&& forall|pos: int|
            0 <= pos < handles.len() ==> #[trigger] self.value_at(pos) == (if handles[pos].spec_index()
                == pos {
                values[pos]
            } else {
                None
            })
        &&& forall|a: int, b: int|
            0 <= a < b < self.free_list().len() ==> self.free_list()[a] > self.free_list()[b]
    }

    /// Builds a map from a handle array and a value array of the same length.
    ///
    /// A handle that names its own position, with a value, makes a live slot.
    /// Any slot without a value becomes a free slot that keeps the generation
    /// of its handle. The free list is threaded anew through the free slots;
    /// what the index fields of their handles held is not used.
    ///
    /// The arrays are rejected, at the first slot that is wrong, where a
    /// stored index or a position is out of range, or where a value stands in
    /// a slot whose handle names another position.
    pub fn from_parts(handles: Vec<I>, values: Vec<Option<T>>) -> (r: Result<Self, RebuildError>)
        requires
            N > 0,
        ensures
            match r {
                Ok(map) => {
                    &&& handles@.len() == values@.len()
                    &&& forall|pos: int|
                        0 <= pos < handles@.len() ==> Self::slot_error(handles@, values@, pos)
                            is None
                    &&& map.wf()
                    &&& map.is_built_from(handles@, values@)
                },
                Err(e) => {
                    if handles@.len() != values@.len() {
                        e == RebuildError::LengthMismatch
                    } else {
                        exists|pos: int|
                            0 <= pos < handles@.len() && #[trigger] Self::slot_error(
                                handles@,
                                values@,
                                pos,
                            ) == Some(e) && forall|q: int|
                                0 <= q < pos ==> Self::slot_error(handles@, values@, q) is None
                    }
                },
            },
    {
        if handles.len() != values.len() {
            return Err(RebuildError::LengthMismatch);
        }
        let mut rest = values;
        let mut map: Self = PagedSlotMap::new();
        let mut chain_head: usize = 0;
        let mut chain_tail: usize = 0;
        let mut removed: usize = 0;
        let ghost mut pending: Seq<int> = Seq::empty();
        let mut i: usize = 0;
        proof {
            assert(map.free@ + Seq::<int>::empty() =~= Seq::<int>::empty());
        }
        while i < handles.len()
            invariant
                N > 0,
                handles@.len() == values@.len(),
                rest@.len() == values@.len(),
                forall|j: int| i <= j < rest@.len() ==> rest@[j] == values@[j],
                i <= handles@.len(),
                map.inv(pending),
                map.indices@.len() == i,
                map.free@ == Seq::<int>::empty(),
                pending.len() == removed,
                removed <= i,
                removed > 0 ==> chain_head == pending[0] && chain_tail == pending.last(),
                forall|a: int| 0 <= a < pending.len() ==> 0 <= #[trigger] pending[a] < i,
                forall|a: int, b: int| 0 <= a < b < pending.len() ==> pending[a] > pending[b],
                forall|q: int| 0 <= q < i ==> Self::slot_error(handles@, values@, q) is None,
                forall|pos: int|
                    0 <= pos < i ==> map.generation_at(pos) == (
                    #[trigger] handles@[pos]).spec_generation(),
                forall|pos: int|
                    0 <= pos < i ==> #[trigger] map.value_at(pos) == (if handles@[pos].spec_index()
                        == pos {
                        values@[pos]
                    } else {
                        None
                    }),
            decreases handles@.len() - i,
        {
            let ghost at_start = map;
            let handle = handles[i];
            let position = match I::Index::from_usize(i) {
                Some(position) => position,
                None => {
                    assert(Self::slot_error(handles@, values@, i as int) == Some(
                        RebuildError::InvalidIndex,
                    ));
                    return Err(RebuildError::InvalidIndex);
                },
            };
            let stored = match handle.index().to_usize() {
                Some(stored) => stored,
                None => {
                    assert(Self::slot_error(handles@, values@, i as int) == Some(
                        RebuildError::InvalidIndex,
                    ));
                    return Err(RebuildError::InvalidIndex);
                },
            };
            let value = rest[i].take();
            if stored != i && value.is_some() {
                assert(Self::slot_error(handles@, values@, i as int) == Some(
                    RebuildError::ValueInFreeSlot,
                ));
                return Err(RebuildError::ValueInFreeSlot);
            }
            assert(Self::slot_error(handles@, values@, i as int) is None);
            if value.is_some() {
                map.append_slot(handle, value, Ghost(pending));
            } else {
                proof {
                    I::Index::lemma_max_at_least_two();
                    handle.lemma_parts_in_range();
                }
                let link: usize = if removed > 0 {
                    chain_head
                } else if i == 0 {
                    1
                } else {
                    0
                };
                let next = I::Index::from_usize(link).unwrap();
                let generation = handle.generation();
                let freed = I::from_raw_parts(next, generation);
                proof {
                    I::lemma_round_trip(next, generation);
                }
                map.append_slot(freed, value, Ghost(pending));
                chain_head = i;
                if removed == 0 {
                    chain_tail = i;
                }
                removed = removed + 1;
                proof {
                    let longer = seq![i as int] + pending;
                    assert(longer.last() == (if pending.len() > 0 {
                        pending.last()
                    } else {
                        i as int
                    }));
                    assert forall|a: int, b: int| 0 <= a < b < longer.len() implies longer[a]
                        > longer[b] by {
                        if a > 0 {
                            assert(longer[a] == pending[a - 1]);
                        }
                        assert(longer[b] == pending[b - 1]);
                    }
                    assert forall|a: int| 0 <= a < longer.len() implies 0 <= #[trigger] longer[a] < i
                        + 1 by {
                        if a > 0 {
                            assert(longer[a] == pending[a - 1]);
                        }
                    }
                    pending = longer;
                }
            }
            proof {
                assert forall|pos: int| 0 <= pos < i + 1 implies map.generation_at(pos) == (
                #[trigger] handles@[pos]).spec_generation() by {
                    if pos < i {
                        assert(at_start.generation_at(pos) == handles@[pos].spec_generation());
                    }
                }
                assert forall|pos: int| 0 <= pos < i + 1 implies #[trigger] map.value_at(pos) == (
                if handles@[pos].spec_index() == pos {
                    values@[pos]
                } else {
                    None
                }) by {
                    if pos < i {
                        assert(at_start.value_at(pos) == (if handles@[pos].spec_index() == pos {
                            values@[pos]
                        } else {
                            None
                        }));
                    }
                }
            }
            i += 1;
        }
        if removed > 0 {
            let ghost built = map;
            map.splice_free(chain_head, chain_tail, removed, Ghost(pending));
            proof {
                assert(Seq::<int>::empty() + pending =~= pending);
                assert forall|pos: int| 0 <= pos < handles@.len() implies #[trigger] map.value_at(pos)
                    == (if handles@[pos].spec_index() == pos {
                    values@[pos]
                } else {
                    None
                }) by {
                    assert(built.value_at(pos) == (if handles@[pos].spec_index() == pos {
                        values@[pos]
                    } else {
                        None
                    }));
                }
                assert forall|pos: int| 0 <= pos < handles@.len() implies map.generation_at(pos) == (
                #[trigger] handles@[pos]).spec_generation() by {
                    assert(built.generation_at(pos) == handles@[pos].spec_generation());
                }
            }
        } else {
            proof {
                assert(pending =~= Seq::<int>::empty());
            }
        }
        Ok(map)
    }

    /// Returns the stored handles and the values slot by slot, as `from_parts`
    /// takes them: the handle of a live slot names the slot's own position;
    /// that of a free slot names another position and comes with no value.
    pub fn to_parts(&self) -> (r: (Vec<I>, Vec<Option<&T>>))
        requires
            self.wf(),
        ensures
            r.0@.len() == self.slot_count(),
            r.1@.len() == self.slot_count(),
            forall|pos: int|
                0 <= pos < self.slot_count() ==> (#[trigger] r.0@[pos]).spec_generation()
                    == self.generation_at(pos) && (r.0@[pos].spec_index() == pos
                    <==> self.value_at(pos) is Some),
            forall|pos: int|
                0 <= pos < self.slot_count() ==> match #[trigger] r.1@[pos] {
                    Some(v) => self.value_at(pos) == Some(*v),
                    None => self.value_at(pos) is None,
                },
    {
        let mut handles: Vec<I> = Vec::new();
        let mut values: Vec<Option<&T>> = Vec::new();
        let mut i: usize = 0;
        while i < self.indices.len()
            invariant
                self.wf(),
                i <= self.indices@.len(),
                handles@.len() == i,
                values@.len() == i,
                forall|pos: int| 0 <= pos < i ==> #[trigger] handles@[pos] == self.indices@[pos],
                forall|pos: int|
                    0 <= pos < i ==> match #[trigger] values@[pos] {
                        Some(v) => self.value_at(pos) == Some(*v),
                        None => self.value_at(pos) is None,
                    },
            decreases self.indices@.len() - i,
        {
            proof {
                lemma_page_of(i as int, N as int, self.pages@.len() as int);
            }
            handles.push(self.indices[i]);
            values.push(self.pages[i / N][i % N].as_ref());
            i += 1;
        }
        proof {
            assert forall|pos: int| 0 <= pos < self.slot_count() implies (
            #[trigger] handles@[pos]).spec_generation() == self.generation_at(pos) && (
            handles@[pos].spec_index() == pos <==> self.value_at(pos) is Some) by {
                assert(self.dead(pos) <==> self.value_at(pos) is None);
            }
        }
        (handles, values)
    }

    /// Whether `states` is a run of maps of which each is the push of the
    /// value of its rank into the one before, with the handle of that rank.
    pub open spec fn is_run_of_pushes(states: Seq<Self>, values: Seq<T>, handles: Seq<I>) -> bool {
        &&& states.len() == values.len() + 1
        &&& handles.len() == values.len()
        &&& forall|j: int| 0 <= j < states.len() ==> (#[trigger] states[j]).wf()
        &&& forall|j: int|
            0 <= j < values.len() ==> #[trigger] Self::push_step(states, values, handles, 0, j)
    }

    /// Whether `self` is what `before` becomes when `values` are pushed one
    /// after the other.
    pub open spec fn is_extend_of(&self, before: &Self, values: Seq<T>) -> bool {
        exists|states: Seq<Self>, handles: Seq<I>|
            #[trigger] Self::is_run_of_pushes(states, values, handles) && states[0] == *before
                && states.last() == *self
    }

    /// Pushes the values one after the other, as `push` does. Free slots are
    /// reused as long as there are any.
    pub fn extend(&mut self, values: Vec<T>)
        requires
            old(self).wf(),
            N > 0,
            values@.len() > old(self).free_list().len() ==> old(self).slot_count() + values@.len()
                - old(self).free_list().len() <= I::Index::max_nat() + 1,
        ensures
            final(self).wf(),
            final(self).is_extend_of(old(self), values@),
            final(self).slot_count() == old(self).slot_count() + (if values@.len() > old(self).free_list().len() {
                values@.len() - old(self).free_list().len()
            } else {
                0
            }),
    {
        let ghost before = *self;
        let mut stack = values.rev();
        let n = stack.len();
        let mut i: usize = 0;
        let ghost mut states: Seq<Self> = seq![before];
        let ghost mut handles: Seq<I> = Seq::empty();
        while i < n
            invariant
                N > 0,
                n == values@.len(),
                values@.len() > before.free_list().len() ==> before.slot_count() + values@.len()
                    - before.free_list().len() <= I::Index::max_nat() + 1,
                i <= n,
                stack@.len() == n - i,
                forall|k: int| 0 <= k < stack@.len() ==> stack@[k] == values@[n - 1 - k],
                self.wf(),
                Self::is_run_of_pushes(states, values@.take(i as int), handles),
                states[0] == before,
                states.last() == *self,
                self.free_list().len() == (if i < before.free_list().len() {
                    before.free_list().len() - i
                } else {
                    0
                }),
                self.slot_count() == before.slot_count() + (if i > before.free_list().len() {
                    i - before.free_list().len()
                } else {
                    0
                }),
            decreases n - i,
        {
            let ghost at_start = *self;
            let value = stack.pop().unwrap();
            let handle = self.push(value);
            proof {
                let shorter = values@.take(i as int);
                let longer = values@.take(i + 1);
                let more = states.push(*self);
                let given = handles.push(handle);
                assert forall|j: int| 0 <= j < longer.len() implies #[trigger] Self::push_step(
                    more,
                    longer,
                    given,
                    0,
                    j,
                ) by {
                    if j < i {
                        assert(Self::push_step(states, shorter, handles, 0, j));
                        assert(more[0 + j + 1] == states[0 + j + 1]);
                        assert(more[0 + j] == states[0 + j]);
                        assert(longer[j] == shorter[j]);
                        assert(given[j] == handles[j]);
                    } else {
                        assert(more[0 + j] == at_start);
                        assert(more[0 + j + 1] == *self);
                        assert(longer[j] == value);
                    }
                }
                assert forall|j: int| 0 <= j < more.len() implies (#[trigger] more[j]).wf() by {
                    if j < states.len() {
                        assert(more[j] == states[j]);
                    }
                }
                states = more;
                handles = given;
            }
            i += 1;
        }
        proof {
            assert(values@.take(n as int) =~= values@);
        }
    }

    /// Creates a map that holds the values, in their order, in the slots from
    /// position 0 on, each in generation 1.
    pub fn from_iter(values: Vec<T>) -> (r: Self)
        requires
            N > 0,
            values@.len() <= I::Index::max_nat() + 1,
        ensures
            r.wf(),
            r.slot_count() == values@.len(),
            r.free_list() == Seq::<int>::empty(),
            forall|j: int|
                0 <= j < values@.len() ==> #[trigger] r.value_at(j) == Some(values@[j])
                    && r.generation_at(j) == 1,
    {
        let mut map: Self = PagedSlotMap::new();
        let n = values.len();
        if usize::MAX - n >= N - 1 {
            map.reserve(n);
        }
        let mut stack = values.rev();
        let mut i: usize = 0;
        while i < n
            invariant
                N > 0,
                n == values@.len(),
                values@.len() <= I::Index::max_nat() + 1,
                i <= n,
                stack@.len() == n - i,
                forall|k: int| 0 <= k < stack@.len() ==> stack@[k] == values@[n - 1 - k],
                map.wf(),
                map.slot_count() == i,
                map.free_list() == Seq::<int>::empty(),
                forall|j: int|
                    0 <= j < i ==> #[trigger] map.value_at(j) == Some(values@[j])
                        && map.generation_at(j) == 1,
            decreases n - i,
        {
            let ghost at_start = map;
            let value = stack.pop().unwrap();
            let _ = map.push(value);
            proof {
                assert forall|j: int| 0 <= j < i + 1 implies #[trigger] map.value_at(j) == Some(
                    values@[j],
                ) && map.generation_at(j) == 1 by {
                    if j < i {
                        assert(at_start.value_at(j) == Some(values@[j]));
                    }
                }
            }
            i += 1;
        }
        map
    }

    /// Returns the value that `index` refers to. The handle has to be that of
    /// a live slot.
    pub fn index(&self, index: I) -> (r: &T)
        requires
            self.wf(),
            self.contains(index),
        ensures
            Some(*r) == self.value_at(index.spec_index() as int),
    {
        self.get(&index).unwrap()
    }

    /// Returns a mutable reference to the value that `index` refers to. The
    /// handle has to be that of a live slot. What the caller writes through
    /// the reference becomes the value of the slot; nothing else changes.
    pub fn index_mut(&mut self, index: I) -> (r: &mut T)
        requires
            old(self).wf(),
            old(self).contains(index),
        ensures
            final(self).wf(),
            final(self).free_list() == old(self).free_list(),
            final(self).agrees_except(old(self), index.spec_index() as int),
            Some(*r) == old(self).value_at(index.spec_index() as int),
            final(self).value_at(index.spec_index() as int) == Some(*final(r)),
            final(self).generation_at(index.spec_index() as int) == index.spec_generation(),
    {
        self.get_mut(&index).unwrap()
    }

    /// Whether `after` is `self` with another value in the live slot at `pos`.
    spec fn only_value_differs(&self, after: &Self, pos: int) -> bool {
        let n = N as int;
        &&& after.indices == self.indices
        &&& after.free == self.free
        &&& after.free_list_head == self.free_list_head
        &&& after.free_list_tail == self.free_list_tail
        &&& after.free_list_size == self.free_list_size
        &&& after.pages@.len() == self.pages@.len()
        &&& forall|p: int|
            0 <= p < self.pages@.len() && p != pos / n ==> after.pages@[p] == self.pages@[p]
        &&& after.pages@[pos / n]@ == self.pages@[pos / n]@.update(
            pos % n,
            after.pages@[pos / n]@[pos % n],
        )
        &&& after.pages@[pos / n]@[pos % n] is Some
    }

    /// Writing another value into a live slot keeps the invariant and leaves
    /// every other slot, every generation and the free list as they were.
    proof fn lemma_value_replaced(&self, after: Self, pos: int)
        requires
            self.wf(),
            0 <= pos < self.indices@.len(),
            self.value_at(pos) is Some,
            self.only_value_differs(&after, pos),
        ensures
            after.wf(),
            after.free_list() == self.free_list(),
            after.agrees_except(self, pos),
            after.generation_at(pos) == self.generation_at(pos),
            after.value_at(pos) == after.pages@[pos / (N as int)]@[pos % (N as int)],
    {
        self.lemma_value_replaced_in(after, pos, Seq::empty());
    }

    /// The same while the slots of `pending` wait to join the free list.
    proof fn lemma_value_replaced_in(&self, after: Self, pos: int, pending: Seq<int>)
        requires
            self.inv(pending),
            0 <= pos < self.indices@.len(),
            self.value_at(pos) is Some,
            self.only_value_differs(&after, pos),
        ensures
            after.inv(pending),
            after.free_list() == self.free_list(),
            after.agrees_except(self, pos),
            after.generation_at(pos) == self.generation_at(pos),
            !after.dead(pos),
            after.value_at(pos) == after.pages@[pos / (N as int)]@[pos % (N as int)],
    {
        let n = N as int;
        lemma_page_of(pos, n, self.pages@.len() as int);
        assert(!self.dead(pos));
        assert forall|q: int| 0 <= q < self.indices@.len() implies (after.dead(q) <==> self.dead(q))
            && (q != pos ==> after.value_at(q) == self.value_at(q)) by {
            lemma_page_of(q, n, self.pages@.len() as int);
            if q / n == pos / n && q % n == pos % n {
                lemma_page_and_offset_determine(q, pos, n);
            }
        }
        assert forall|p: int| 0 <= p < after.pages@.len() implies (#[trigger] after.pages@[p])@.len()
            == N by {
            assert(self.pages@[p]@.len() == N);
        }
        assert forall|q: int| 0 <= q < after.indices@.len() implies (after.dead(q)
            <==> #[trigger] after.value_at(q) is None) by {
            assert(self.dead(q) <==> self.value_at(q) is None);
        }
        assert forall|q: int| 0 <= q < after.indices@.len() && #[trigger] after.dead(
            q,
        ) implies (after.free@ + pending).contains(q) by {
            assert(self.dead(q));
        }
        assert forall|k: int| 0 <= k < (after.free@ + pending).len() implies 0 <= (
        #[trigger] (after.free@ + pending)[k]) < after.indices@.len() && after.dead(
            (after.free@ + pending)[k],
        ) by {
            assert(self.dead((self.free@ + pending)[k]));
        }
    }
}

impl<T, I: GenIndex, const N: usize> PagedSlotMap<T, I, N> {
    /// The value that `key` refers to, if `key` is the handle of a live slot.
    pub open spec fn value_of(&self, key: I) -> Option<T> {
        if self.contains(key) {
            self.value_at(key.spec_index() as int)
        } else {
            None
        }
    }
}

impl<T, I: GenIndex, const N: usize> PagedSlotMap<T, I, N> {
    /// A handle stays unique when its slot is reused.
    ///
    /// In a map without free slots, a value that is removed and another that
    /// is pushed next share the position, the new handle is in the next
    /// generation, which differs from the old one, and the old handle no
    /// longer refers to anything.
    pub proof fn lemma_reuse_advances_generation(
        start: Self,
        removed: Self,
        reused: Self,
        key: I,
        taken: Option<T>,
        value: T,
        handle: I,
    )
        requires
            start.contains(key),
            start.free_list().len() == 0,
            removed.is_remove_of(&start, key, taken),
            reused.is_push_of(&removed, value, handle),
        ensures
            handle.spec_index() == key.spec_index(),
            handle.spec_generation() == crate::genindex::spec_next_generation(
                key.spec_generation(),
                I::spec_max_generation(),
            ),
            handle.spec_generation() != key.spec_generation(),
            reused.contains(handle),
            !reused.contains(key),
            reused.value_of(key) is None,
    {
        crate::genindex::lemma_next_generation_differs::<I>(key.spec_generation());
        assert(removed.free_list() =~= seq![key.spec_index() as int]);
        assert(removed.next_position() == key.spec_index());
    }

    /// Pushing, removing what was pushed and pushing again reuses the slot in
    /// the next generation.
    ///
    /// In a map with at most one free slot, the second push returns a handle
    /// of the position of the first in the generation that follows, which
    /// differs from that of the first; the first handle no longer refers to
    /// anything. With two free slots or more, the second push takes another
    /// of them.
    pub proof fn lemma_push_remove_push(
        start: Self,
        pushed: Self,
        removed: Self,
        reused: Self,
        first: T,
        key: I,
        taken: Option<T>,
        second: T,
        handle: I,
    )
        requires
            start.wf(),
            start.free_list().len() <= 1,
            pushed.is_push_of(&start, first, key),
            removed.is_remove_of(&pushed, key, taken),
            reused.is_push_of(&removed, second, handle),
        ensures
            taken == Some(first),
            handle.spec_index() == key.spec_index(),
            handle.spec_generation() == crate::genindex::spec_next_generation(
                key.spec_generation(),
                I::spec_max_generation(),
            ),
            handle.spec_generation() != key.spec_generation(),
            reused.value_of(handle) == Some(second),
            reused.value_of(key) is None,
    {
        start.lemma_free_list();
        if start.free_list().len() > 0 {
            assert(start.free_list()[0] < start.slot_count());
        }
        assert(pushed.contains(key));
        assert(pushed.free_list() =~= Seq::<int>::empty());
        Self::lemma_reuse_advances_generation(pushed, removed, reused, key, taken, second, handle);
    }

    /// One step of a run of removals: `keys[j]` refers to a value of
    /// `states[j]`, and removing it gives `states[j + 1]`.
    pub open spec fn removal_step(
        states: Seq<Self>,
        keys: Seq<I>,
        taken: Seq<Option<T>>,
        j: int,
    ) -> bool {
        states[j].contains(keys[j]) && states[j + 1].is_remove_of(&states[j], keys[j], taken[j])
    }

    /// One step of a run of pushes that follows `k` removals: pushing
    /// `values[j]` into `states[k + j]` gives `states[k + j + 1]` and the
    /// handle `handles[j]`.
    pub open spec fn push_step(
        states: Seq<Self>,
        values: Seq<T>,
        handles: Seq<I>,
        k: int,
        j: int,
    ) -> bool {
        states[k + j + 1].is_push_of(&states[k + j], values[j], handles[j])
    }

    /// The positions that `keys` name, in the order of `keys`.
    pub open spec fn positions(keys: Seq<I>) -> Seq<int> {
        Seq::new(keys.len(), |i: int| keys[i].spec_index() as int)
    }

    /// After `j` removals the free list has grown by the positions of the
    /// removed values, in the order of their removal.
    proof fn lemma_after_removals(
        states: Seq<Self>,
        keys: Seq<I>,
        taken: Seq<Option<T>>,
        k: int,
        j: int,
    )
        requires
            0 <= j <= k,
            states.len() >= k + 1,
            keys.len() == k,
            taken.len() == k,
            forall|i: int| 0 <= i < k ==> #[trigger] Self::removal_step(states, keys, taken, i),
        ensures
            states[j].slot_count() == states[0].slot_count(),
            states[j].free_list() == states[0].free_list() + Self::positions(keys).take(j),
        decreases j,
    {
        if j == 0 {
            assert(states[0].free_list() =~= states[0].free_list() + Self::positions(keys).take(0));
        } else {
            Self::lemma_after_removals(states, keys, taken, k, j - 1);
            assert(Self::removal_step(states, keys, taken, j - 1));
            assert(states[j].free_list() =~= states[0].free_list() + Self::positions(keys).take(j));
        }
    }

    /// After `k` removals and `j` pushes, the pushes have taken the first `j`
    /// positions of the free list that the removals left, and the free list
    /// holds the rest of it.
    proof fn lemma_after_pushes(
        states: Seq<Self>,
        keys: Seq<I>,
        taken: Seq<Option<T>>,
        values: Seq<T>,
        handles: Seq<I>,
        k: int,
        j: int,
    )
        requires
            0 <= j <= k,
            states.len() == 2 * k + 1,
            keys.len() == k,
            taken.len() == k,
            values.len() == k,
            handles.len() == k,
            forall|i: int| 0 <= i < k ==> #[trigger] Self::removal_step(states, keys, taken, i),
            forall|i: int| 0 <= i < k ==> #[trigger] Self::push_step(states, values, handles, k, i),
        ensures
            states[k + j].slot_count() == states[0].slot_count(),
            states[k + j].free_list() == (states[0].free_list() + Self::positions(keys)).skip(j),
            forall|i: int|
                0 <= i < j ==> (#[trigger] handles[i]).spec_index() == (states[0].free_list()
                    + Self::positions(keys))[i],
        decreases j,
    {
        let all = states[0].free_list() + Self::positions(keys);
        if j == 0 {
            Self::lemma_after_removals(states, keys, taken, k, k);
            assert(Self::positions(keys).take(k) =~= Self::positions(keys));
            assert(states[k].free_list() =~= all.skip(0));
        } else {
            Self::lemma_after_pushes(states, keys, taken, values, handles, k, j - 1);
            assert(Self::push_step(states, values, handles, k, j - 1));
            let before = states[k + j - 1];
            assert(before.free_list().len() == all.len() - j + 1);
            assert(before.free_list()[0] == all[j - 1]);
            assert(states[k + j].free_list() =~= all.skip(j));
        }
    }

    /// Free slots are reused in the order in which they became free.
    ///
    /// When `k` values are removed and `k` values are pushed after that, the
    /// pushes take the first `k` positions of the free list as the removals
    /// left it: the one of the start with the positions of the removed values
    /// behind it, in the order of their removal. The number of slots never
    /// changes: no new slot is made.
    pub proof fn lemma_reuse_in_order(
        states: Seq<Self>,
        keys: Seq<I>,
        taken: Seq<Option<T>>,
        values: Seq<T>,
        handles: Seq<I>,
        k: int,
    )
        requires
            0 <= k,
            states.len() == 2 * k + 1,
            keys.len() == k,
            taken.len() == k,
            values.len() == k,
            handles.len() == k,
            forall|i: int| 0 <= i < k ==> #[trigger] Self::removal_step(states, keys, taken, i),
            forall|i: int| 0 <= i < k ==> #[trigger] Self::push_step(states, values, handles, k, i),
        ensures
            forall|i: int|
                0 <= i < k ==> (#[trigger] handles[i]).spec_index() == (states[0].free_list()
                    + Self::positions(keys))[i],
            forall|i: int|
                0 <= i <= 2 * k ==> (#[trigger] states[i]).slot_count() == states[0].slot_count(),
            states[2 * k].free_list() == (states[0].free_list() + Self::positions(keys)).skip(k),
    {
        Self::lemma_after_pushes(states, keys, taken, values, handles, k, k);
        assert forall|i: int| 0 <= i <= 2 * k implies (#[trigger] states[i]).slot_count()
            == states[0].slot_count() by {
            if i <= k {
                Self::lemma_after_removals(states, keys, taken, k, i);
            } else {
                Self::lemma_after_pushes(states, keys, taken, values, handles, k, i - k);
            }
        }
    }

    /// Free slots are reused first in, first out.
    ///
    /// When `k` values are removed from a map without free slots and `k`
    /// values are pushed after that, each push reuses the position that the
    /// removal of the same rank has freed, and the number of slots never
    /// changes: no new slot is made.
    pub proof fn lemma_free_list_is_fifo(
        states: Seq<Self>,
        keys: Seq<I>,
        taken: Seq<Option<T>>,
        values: Seq<T>,
        handles: Seq<I>,
        k: int,
    )
        requires
            0 <= k,
            states.len() == 2 * k + 1,
            keys.len() == k,
            taken.len() == k,
            values.len() == k,
            handles.len() == k,
            states[0].free_list().len() == 0,
            forall|i: int| 0 <= i < k ==> #[trigger] Self::removal_step(states, keys, taken, i),
            forall|i: int| 0 <= i < k ==> #[trigger] Self::push_step(states, values, handles, k, i),
        ensures
            forall|i: int|
                0 <= i < k ==> (#[trigger] handles[i]).spec_index() == keys[i].spec_index(),
            forall|i: int|
                0 <= i <= 2 * k ==> (#[trigger] states[i]).slot_count() == states[0].slot_count(),
            states[2 * k].free_list().len() == 0,
    {
        Self::lemma_reuse_in_order(states, keys, taken, values, handles, k);
        assert(states[0].free_list() + Self::positions(keys) =~= Self::positions(keys));
    }
}

impl<T, I: GenIndex, const N: usize> PagedSlotMap<T, I, N> {
    /// A map with the stored handles and the free list of `self`, and with a
    /// value in the same slots, meets the invariant as `self` does.
    proof fn lemma_same_shape(&self, other: Self)
        requires
            self.wf(),
            other.indices@ == self.indices@,
            other.free@ == self.free@,
            other.free_list_head == self.free_list_head,
            other.free_list_tail == self.free_list_tail,
            other.free_list_size == self.free_list_size,
            other.pages@.len() == self.pages@.len(),
            forall|p: int| 0 <= p < other.pages@.len() ==> (#[trigger] other.pages@[p])@.len() == N,
            forall|pos: int|
                0 <= pos < self.indices@.len() ==> (#[trigger] other.value_at(pos) is None
                    <==> self.value_at(pos) is None),
        ensures
            other.wf(),
    {
        let all = self.free@ + Seq::<int>::empty();
        assert forall|pos: int| 0 <= pos < other.indices@.len() implies (other.dead(pos)
            <==> #[trigger] other.value_at(pos) is None) by {
            assert(self.dead(pos) <==> self.value_at(pos) is None);
        }
        assert forall|pos: int| 0 <= pos < other.indices@.len() && #[trigger] other.dead(
            pos,
        ) implies all.contains(pos) by {
            assert(self.dead(pos));
        }
        assert forall|k: int| 0 <= k < all.len() implies 0 <= #[trigger] all[k]
            < other.indices@.len() && other.dead(all[k]) by {
            assert(self.dead(all[k]));
        }
    }
}

impl<T: Clone, I: GenIndex, const N: usize> Clone for PagedSlotMap<T, I, N> {
    /// Returns a map with the same slots and the same free list, each value a
    /// clone of the value in the same slot of `self`.
    fn clone(&self) -> (r: Self)
        ensures
            self.wf() ==> {
                &&& r.wf()
                &&& r.slot_count() == self.slot_count()
                &&& r.free_list() == self.free_list()
                &&& forall|pos: int|
                    0 <= pos < self.slot_count() ==> r.generation_at(pos) == self.generation_at(
                        pos,
                    ) && match (self.value_at(pos), #[trigger] r.value_at(pos)) {
                        (Some(mine), Some(copy)) => cloned(mine, copy),
                        (None, None) => true,
                        _ => false,
                    }
            },
    {
        let mut indices: Vec<I> = Vec::new();
        let mut i: usize = 0;
        while i < self.indices.len()
            invariant
                i <= self.indices@.len(),
                indices@ == self.indices@.take(i as int),
            decreases self.indices@.len() - i,
        {
            indices.push(self.indices[i]);
            proof {
                assert(indices@ =~= self.indices@.take(i + 1));
            }
            i += 1;
        }
        proof {
            assert(indices@ =~= self.indices@);
        }
        let mut pages: Vec<Vec<Option<T>>> = Vec::new();
        let mut p: usize = 0;
        while p < self.pages.len()
            invariant
                p <= self.pages@.len(),
                pages@.len() == p,
                forall|q: int|
                    0 <= q < p ==> (#[trigger] pages@[q])@.len() == self.pages@[q]@.len(),
                forall|q: int, o: int|
                    0 <= q < p && 0 <= o < self.pages@[q]@.len() ==> match (
                        self.pages@[q]@[o],
                        #[trigger] pages@[q]@[o],
                    ) {
                        (Some(mine), Some(copy)) => cloned(mine, copy),
                        (None, None) => true,
                        _ => false,
                    },
            decreases self.pages@.len() - p,
        {
            let source = &self.pages[p];
            let mut page: Vec<Option<T>> = Vec::new();
            let mut o: usize = 0;
            while o < source.len()
                invariant
                    o <= source@.len(),
                    page@.len() == o,
                    forall|k: int|
                        0 <= k < o ==> match (source@[k], #[trigger] page@[k]) {
                            (Some(mine), Some(copy)) => cloned(mine, copy),
                            (None, None) => true,
                            _ => false,
                        },
                decreases source@.len() - o,
            {
                page.push(source[o].as_ref().cloned());
                o += 1;
            }
            let ghost done = pages@;
            pages.push(page);
            proof {
                assert forall|q: int, o: int|
                    0 <= q < p + 1 && 0 <= o < self.pages@[q]@.len() implies match (
                    self.pages@[q]@[o],
                    #[trigger] pages@[q]@[o],
                ) {
                    (Some(mine), Some(copy)) => cloned(mine, copy),
                    (None, None) => true,
                    _ => false,
                } by {
                    if q < p {
                        assert(pages@[q] == done[q]);
                    }
                }
                assert forall|q: int| 0 <= q < p + 1 implies (#[trigger] pages@[q])@.len()
                    == self.pages@[q]@.len() by {
                    if q < p {
                        assert(pages@[q] == done[q]);
                    }
                }
            }
            p += 1;
        }
        let r = PagedSlotMap {
            indices,
            pages,
            free_list_head: self.free_list_head,
            free_list_tail: self.free_list_tail,
            free_list_size: self.free_list_size,
            free: Ghost(self.free@),
        };
        proof {
            if self.wf() {
                assert forall|pos: int| 0 <= pos < self.indices@.len() implies match (
                    self.value_at(pos),
                    #[trigger] r.value_at(pos),
                ) {
                    (Some(mine), Some(copy)) => cloned(mine, copy),
                    (None, None) => true,
                    _ => false,
                } by {
                    lemma_page_of(pos, N as int, self.pages@.len() as int);
                    assert(self.pages@[pos / (N as int)]@.len() == N);
                }
                assert forall|q: int| 0 <= q < r.pages@.len() implies (
                #[trigger] r.pages@[q])@.len() == N by {
                    assert(self.pages@[q]@.len() == N);
                }
                self.lemma_same_shape(r);
            }
        }
        r
    }
}

impl<T, I: GenIndex, const N: usize> PagedSlotMap<T, I, N> {
    /// What the cell of position `pos` holds, `None` also where the pages do
    /// not reach that far.
    spec fn cell(&self, pos: int) -> Option<T> {
        if N > 0 && 0 <= pos / (N as int) < self.pages@.len() && 0 <= pos % (N as int)
            < self.pages@[pos / (N as int)]@.len() {
            self.pages@[pos / (N as int)]@[pos % (N as int)]
        } else {
            None
        }
    }

    /// Returns what the cell of position `pos` holds.
    fn cell_ref(&self, pos: usize) -> (r: Option<&T>)
        ensures
            match r {
                Some(v) => self.cell(pos as int) == Some(*v),
                None => self.cell(pos as int) is None,
            },
    {
        if N == 0 {
            return None;
        }
        let page = pos / N;
        let offset = pos % N;
        if page < self.pages.len() {
            if offset < self.pages[page].len() {
                return self.pages[page][offset].as_ref();
            }
        }
        None
    }

    /// The positions of the free lists of two maps agree as far as their
    /// stored handles and their heads do.
    proof fn lemma_same_chain(&self, other: &Self, k: int)
        requires
            self.wf(),
            other.wf(),
            self.indices@.len() == other.indices@.len(),
            forall|i: int|
                0 <= i < self.indices@.len() ==> (#[trigger] self.indices@[i]).spec_index()
                    == other.indices@[i].spec_index(),
            self.free_list_head == other.free_list_head,
            self.free_list_size == other.free_list_size,
            0 <= k < self.free@.len(),
        ensures
            self.free@[k] == other.free@[k],
        decreases k,
    {
        let mine = self.free@ + Seq::<int>::empty();
        let theirs = other.free@ + Seq::<int>::empty();
        assert(mine =~= self.free@);
        assert(theirs =~= other.free@);
        if k > 0 {
            self.lemma_same_chain(other, k - 1);
            assert(0 <= mine[k - 1] < self.indices@.len());
            assert(self.indices@[self.free@[k - 1]].spec_index() == self.free@[k]);
            assert(other.indices@[other.free@[k - 1]].spec_index() == other.free@[k]);
        }
    }

}

impl<T: PartialEq, I: GenIndex, const N: usize> PagedSlotMap<T, I, N> {
    /// Two maps that compare equal have the same slots and the same free
    /// list: slot by slot the same generation and values that compare equal.
    pub proof fn lemma_eq_means_same_contents(&self, other: &Self)
        requires
            self.wf(),
            other.wf(),
            self.equals(other),
        ensures
            self.slot_count() == other.slot_count(),
            self.free_list() == other.free_list(),
            forall|pos: int|
                0 <= pos < self.slot_count() ==> self.generation_at(pos) == other.generation_at(
                    pos,
                ) && match (#[trigger] self.value_at(pos), other.value_at(pos)) {
                    (Some(a), Some(b)) => a.eq_spec(&b),
                    (None, None) => true,
                    _ => false,
                },
    {
        assert forall|k: int| 0 <= k < self.free@.len() implies self.free@[k] == other.free@[k] by {
            self.lemma_same_chain(other, k);
        }
        assert(self.free@ =~= other.free@);
        assert forall|pos: int| 0 <= pos < self.slot_count() implies self.generation_at(pos)
            == other.generation_at(pos)
                && match (#[trigger] self.value_at(pos), other.value_at(pos)) {
            (Some(a), Some(b)) => a.eq_spec(&b),
            (None, None) => true,
            _ => false,
        } by {
            lemma_page_of(pos, N as int, self.pages@.len() as int);
            lemma_page_of(pos, N as int, other.pages@.len() as int);
            assert(self.pages@[pos / (N as int)]@.len() == N);
            assert(other.pages@[pos / (N as int)]@.len() == N);
            assert(self.cell(pos) == self.value_at(pos));
            assert(other.cell(pos) == other.value_at(pos));
            assert(self.indices@[pos].spec_index() == other.indices@[pos].spec_index());
            assert(self.dead(pos) <==> self.value_at(pos) is None);
            assert(other.dead(pos) <==> other.value_at(pos) is None);
        }
    }

    /// Whether the two maps store the same: handle by handle the same parts,
    /// the same ends and the same length of the free list, and in every slot
    /// that the handles mark as live values that compare equal.
    pub closed spec fn equals(&self, other: &Self) -> bool {
        &&& self.indices@.len() == other.indices@.len()
        &&& self.free_list_head == other.free_list_head
        &&& self.free_list_tail == other.free_list_tail
        &&& self.free_list_size == other.free_list_size
        &&& forall|i: int|
            0 <= i < self.indices@.len() ==> (#[trigger] self.indices@[i]).spec_index()
                == other.indices@[i].spec_index() && self.indices@[i].spec_generation()
                == other.indices@[i].spec_generation()
        &&& forall|i: int|
            0 <= i < self.indices@.len() && (#[trigger] self.indices@[i]).spec_index() == i
                ==> match (self.cell(i), other.cell(i)) {
                (Some(a), Some(b)) => a.eq_spec(&b),
                (None, None) => true,
                _ => false,
            }
    }
}

impl<T: PartialEq, I: GenIndex, const N: usize> PartialEq for PagedSlotMap<T, I, N> {
    fn eq(&self, other: &Self) -> (r: bool) {
        if self.indices.len() != other.indices.len() || self.free_list_head
            != other.free_list_head || self.free_list_tail != other.free_list_tail
            || self.free_list_size != other.free_list_size {
            return false;
        }
        let mut i: usize = 0;
        while i < self.indices.len()
            invariant
                self.indices@.len() == other.indices@.len(),
                i <= self.indices@.len(),
                forall|j: int|
                    0 <= j < i ==> (#[trigger] self.indices@[j]).spec_index()
                        == other.indices@[j].spec_index() && self.indices@[j].spec_generation()
                        == other.indices@[j].spec_generation(),
            decreases self.indices@.len() - i,
        {
            if !self.indices[i].same(&other.indices[i]) {
                return false;
            }
            i += 1;
        }
        let mut i: usize = 0;
        while i < self.indices.len()
            invariant
                self.indices@.len() == other.indices@.len(),
                i <= self.indices@.len(),
                forall|j: int|
                    0 <= j < i && (#[trigger] self.indices@[j]).spec_index() == j ==> match (
                        self.cell(j),
                        other.cell(j),
                    ) {
                        (Some(a), Some(b)) => T::obeys_eq_spec() ==> a.eq_spec(&b),
                        (None, None) => true,
                        _ => false,
                    },
            decreases self.indices@.len() - i,
        {
            let live = match self.indices[i].index().to_usize() {
                Some(p) => p == i,
                None => false,
            };
            if live {
                let same = match (self.cell_ref(i), other.cell_ref(i)) {
                    (Some(a), Some(b)) => *a == *b,
                    (None, None) => true,
                    _ => false,
                };
                if !same {
                    return false;
                }
            }
            i += 1;
        }
        true
    }
}

impl<T: PartialEq, I: GenIndex, const N: usize> PartialEqSpecImpl for PagedSlotMap<T, I, N> {
    open spec fn obeys_eq_spec() -> bool {
        T::obeys_eq_spec()
    }

    open spec fn eq_spec(&self, other: &Self) -> bool {
        self.equals(other)
    }
}

impl<T: core::hash::Hash, I: GenIndex + core::hash::Hash, const N: usize> core::hash::Hash for PagedSlotMap<
    T,
    I,
    N,
> {
    /// Feeds the stored handles, the value of every slot that the handles
    /// mark as live, and the ends and the length of the free list to the
    /// hasher.
    fn hash<H: core::hash::Hasher>(&self, state: &mut H) {
        crate::hashing::feed(&self.indices, state);
        let mut i: usize = 0;
        while i < self.indices.len()
            invariant
                i <= self.indices@.len(),
            decreases self.indices@.len() - i,
        {
            let live = match self.indices[i].index().to_usize() {
                Some(p) => p == i,
                None => false,
            };
            let value = if live {
                self.cell_ref(i)
            } else {
                None
            };
            crate::hashing::feed(&value, state);
            i += 1;
        }
        crate::hashing::feed(&self.free_list_head, state);
        crate::hashing::feed(&self.free_list_tail, state);
        crate::hashing::feed(&self.free_list_size, state);
    }
}

impl<T: core::fmt::Debug, I: GenIndex + core::fmt::Debug, const N: usize> PagedSlotMap<T, I, N> {
    /// Returns the map as text for debugging: between braces the live slots
    /// in the order of the positions, each as its handle, a colon and its
    /// value, with a comma between each two. The handles and the values are
    /// written as their `Debug` impls print them.
    pub fn debug_string(&self) -> (text: String)
        requires
            self.wf(),
        ensures
            exists|entries: Seq<(Seq<char>, Seq<char>)>|
                entries.len() == self.spec_len() && text@ == #[trigger] crate::formatting::map_text(
                    entries,
                ),
    {
        let listed = self.iter();
        let mut entries: Vec<(String, String)> = Vec::new();
        let mut k: usize = 0;
        while k < listed.len()
            invariant
                k <= listed@.len(),
                entries@.len() == k,
            decreases listed@.len() - k,
        {
            let key = crate::formatting::debug_text(listed[k].0);
            let value = crate::formatting::debug_text(listed[k].1);
            entries.push((key, value));
            k += 1;
        }
        let text = crate::formatting::write_map(&entries);
        proof {
            let texts = crate::formatting::texts_of(entries@);
            assert(texts.len() == self.spec_len());
            assert(text@ == crate::formatting::map_text(texts));
        }
        text
    }
}

impl<T, I: GenIndex, const N: usize> Default for PagedSlotMap<T, I, N> {
    /// Creates an empty map.
    fn default() -> (r: Self)
        ensures
            r.wf(),
            r.slot_count() == 0,
            r.free_list() == Seq::<int>::empty(),
    {
        PagedSlotMap::new()
    }
}

impl<T, I: GenIndex, const N: usize> Valid for PagedSlotMap<T, I, N> {
    open spec fn valid(&self) -> bool {
        self.wf()
    }
}

impl<T, I: GenIndex, const N: usize> Len for PagedSlotMap<T, I, N> {
    open spec fn spec_len(&self) -> nat {
        (self.slot_count() - self.free_list().len()) as nat
    }

    fn len(&self) -> (n: usize) {
        PagedSlotMap::len(self)
    }
}

impl<T, I: GenIndex, const N: usize> Clear for PagedSlotMap<T, I, N> {
    fn clear(&mut self)
        ensures
            final(self).wf(),
            final(self).slot_count() == 0,
            final(self).free_list() == Seq::<int>::empty(),
    {
        PagedSlotMap::clear(self)
    }
}

impl<T, I: GenIndex, const N: usize> Push for PagedSlotMap<T, I, N> {
    type Index = I;

    type Value = T;

    open spec fn can_push(&self) -> bool {
        N > 0 && (self.free_list().len() == 0 ==> self.slot_count() <= I::Index::max_nat())
    }

    open spec fn is_pushed(&self, before: &Self, value: T, index: I) -> bool {
        self.is_push_of(before, value, index)
    }

    fn push(&mut self, value: T) -> (index: I) {
        proof {
            self.lemma_free_list();
        }
        PagedSlotMap::push(self, value)
    }
}

impl<T, I: GenIndex, const N: usize> KeyedMap for PagedSlotMap<T, I, N> {
    type Key = I;

    type Value = T;
}

impl<T, I: GenIndex, const N: usize> MapGet<I> for PagedSlotMap<T, I, N> {
    open spec fn spec_get(&self, key: I) -> Option<T> {
        self.value_of(key)
    }

    fn get(&self, key: &I) -> (r: Option<&T>) {
        PagedSlotMap::get(self, key)
    }
}

impl<T, I: GenIndex, const N: usize> MapMut<I> for PagedSlotMap<T, I, N> {
    /// The free list and the other slots stay; the slot of `key` keeps its
    /// generation.
    open spec fn is_written(&self, before: &Self, key: I, value: Option<T>) -> bool {
        &&& self.free_list() == before.free_list()
        &&& match value {
            Some(v) => self.agrees_except(before, key.spec_index() as int) && self.value_at(
                key.spec_index() as int,
            ) == Some(v) && self.generation_at(key.spec_index() as int) == before.generation_at(
                key.spec_index() as int,
            ),
            None => self.agrees(before),
        }
    }

    open spec fn is_removed(&self, before: &Self, key: I) -> bool {
        self.is_remove_of(before, key, before.value_of(key))
    }

    fn get_mut(&mut self, key: &I) -> (r: Option<&mut T>)
        ensures
            final(self).free_list() == old(self).free_list(),
            final(self).agrees_except(old(self), key.spec_index() as int),
    {
        PagedSlotMap::get_mut(self, key)
    }

    fn remove(&mut self, key: &I) -> (r: Option<T>) {
        PagedSlotMap::remove(self, key)
    }
}

impl<T, I: GenIndex, const N: usize> MapInsert for PagedSlotMap<T, I, N> {
    open spec fn spec_value(&self, key: I) -> Option<T> {
        self.value_of(key)
    }

    open spec fn can_insert(&self, key: I) -> bool {
        true
    }

    /// The value of a live slot is replaced; a handle of no live slot changes
    /// nothing.
    open spec fn is_inserted(&self, before: &Self, key: I, value: T) -> bool {
        if before.contains(key) {
            &&& self.free_list() == before.free_list()
            &&& self.agrees_except(before, key.spec_index() as int)
            &&& self.value_at(key.spec_index() as int) == Some(value)
            &&& self.generation_at(key.spec_index() as int) == key.spec_generation()
        } else {
            self.agrees(before)
        }
    }

    /// Puts `value` in the place of the value that `key` refers to and
    /// returns the old one. A handle of no live slot gets no value: the map
    /// stays as it is and the result is `None`.
    fn insert(&mut self, key: I, value: T) -> (r: Option<T>) {
        match PagedSlotMap::get_mut(self, &key) {
            Some(dest) => {
                let mut held = value;
                core::mem::swap(dest, &mut held);
                Some(held)
            },
            None => None,
        }
    }
}

impl<T, I: GenIndex, const N: usize> Retain<I, T> for PagedSlotMap<T, I, N> {
    open spec fn spec_held(&self, key: I) -> Option<T> {
        self.value_of(key)
    }

    /// A handle is known by its parts.
    open spec fn is_same_key(given: I, key: I) -> bool {
        same_parts(given, key)
    }

    /// The slots stay, with their generations; the slot of a handle that is
    /// not kept is free, and the slots that were free come first in the free
    /// list.
    open spec fn is_kept_of(&self, before: &PagedSlotMap<T, I, N>, kept: Map<I, T>) -> bool {
        &&& self.slot_count() == before.slot_count()
        &&& forall|p: int|
            0 <= p < before.slot_count() ==> #[trigger] self.generation_at(p) == before.generation_at(p)
        &&& forall|p: int|
            0 <= p < before.slot_count() && before.value_at(p) is None ==> (#[trigger] self.value_at(
                p,
            )) is None
        &&& forall|h: I| #[trigger] kept.contains_key(h) ==> before.contains(h)
        &&& forall|h: I|
            before.contains(h) ==> #[trigger] self.value_of(h) == (if kept.contains_key(h) {
                Some(kept[h])
            } else {
                None
            })
        &&& before.free_list().is_prefix_of(self.free_list())
    }

    fn retain<F: FnMut(&I, &mut T) -> bool>(&mut self, f: F)
        ensures
            final(self).slot_count() == old(self).slot_count(),
            forall|p: int|
                0 <= p < old(self).slot_count() ==> final(self).generation_at(p) == old(self).generation_at(p),
            forall|p: int|
                0 <= p < old(self).slot_count()
                    && old(self).value_at(p) is None ==> final(self).value_at(p) is None,
            forall|p: int|
                0 <= p < old(self).slot_count() && old(self).value_at(p) is Some ==> exists|
                    k: &I,
                    v: &mut T,
                    keep: bool,
                |
                    k.spec_index() == p && k.spec_generation() == old(self).generation_at(p) && *v
                        == old(self).value_at(p).unwrap() && #[trigger] call_ensures(
                        f,
                        (k, v),
                        keep,
                    ) && final(self).value_at(p) == (if keep {
                        Some(*final(v))
                    } else {
                        None
                    }),
            old(self).free_list().is_prefix_of(final(self).free_list()),
            forall|a: int, b: int|
                old(self).free_list().len() <= a < b < final(self).free_list().len() ==> final(self).free_list()[a] > final(self).free_list()[b],
    {
        PagedSlotMap::retain(self, f);
        proof {
            let before = *old(self);
            let after = *self;
            let kept = Map::<I, T>::new(
                |h: I| before.contains(h) && after.contains(h),
                |h: I| after.value_of(h).unwrap(),
            );
            assert(self.is_kept_of(old(self), kept));
            assert forall|key: I| (#[trigger] old(self).spec_held(key)) is Some implies exists|
                k: &I,
                v: &mut T,
                keep: bool,
            |
                Self::is_same_key(*k, key) && Some(*v) == old(self).spec_held(key)
                    && #[trigger] call_ensures(f, (k, v), keep) && keep == kept.contains_key(key) && (keep
                    ==> kept[key] == *final(v)) by {
                let p = key.spec_index() as int;
                assert(before.contains(key));
                assert(before.value_at(p) is Some);
            }
        }
    }
}

} // verus!
