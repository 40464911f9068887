//! A stable merge sort that orders positions by what a comparator returns.

use core::cmp::Ordering;
use vstd::prelude::*;

verus! {

/// The position that cell `k` of `order` names.
pub open spec fn named(order: Seq<usize>, k: int) -> int {
    order[k] as int
}

/// A machine index as a number.
pub open spec fn whole(i: usize) -> int {
    i as int
}

/// The length of a sequence as a number.
pub open spec fn count<A>(s: Seq<A>) -> int {
    s.len() as int
}

/// Whether `compare` can return `o` for the entries `a` and `b`.
pub open spec fn may_return<I, T, F: FnMut((&I, &T), (&I, &T)) -> Ordering>(
    compare: F,
    a: (I, T),
    b: (I, T),
    o: Ordering,
) -> bool {
    call_ensures(compare, ((&a.0, &a.1), (&b.0, &b.1)), o)
}

/// Whether `compare` has an answer for `a` and `b` that does not put `a` after `b`.
pub open spec fn seen_in_order<I, T, F: FnMut((&I, &T), (&I, &T)) -> Ordering>(
    compare: F,
    a: (I, T),
    b: (I, T),
) -> bool {
    exists|o: Ordering| #[trigger] may_return(compare, a, b, o) && o != Ordering::Greater
}

/// Whether `compare` has an answer for `a` and `b` that puts `a` after `b`.
pub open spec fn seen_reversed<I, T, F: FnMut((&I, &T), (&I, &T)) -> Ordering>(
    compare: F,
    a: (I, T),
    b: (I, T),
) -> bool {
    exists|o: Ordering| #[trigger] may_return(compare, a, b, o) && o == Ordering::Greater
}

/// Whether the entry at position `x` may stand directly before the entry at
/// position `y`: either `x` is the earlier position and `compare` did not put
/// its entry after the other, or `y` is the earlier position and `compare`
/// put its entry after the other.
pub open spec fn placed<I, T, F: FnMut((&I, &T), (&I, &T)) -> Ordering>(
    compare: F,
    entries: Seq<(I, T)>,
    x: int,
    y: int,
) -> bool {
    ||| x < y && seen_in_order(compare, entries[x], entries[y])
    ||| y < x && seen_reversed(compare, entries[y], entries[x])
}

/// Whether `order` names every position from `lo` up to `hi`, each once.
pub open spec fn lists_range(order: Seq<usize>, lo: int, hi: int) -> bool {
    &&& order.len() == hi - lo
    &&& forall|k: int| 0 <= k < order.len() ==> lo <= #[trigger] named(order, k) < hi
    &&& forall|a: int, b: int|
        0 <= a < b < order.len() ==> #[trigger] named(order, a) != #[trigger] named(order, b)
}

/// An order that lists the positions below `n` each once names every one of them.
pub proof fn lemma_order_covers(order: Seq<usize>, n: int, p: int)
    requires
        lists_range(order, 0, n),
        0 <= p < n,
    ensures
        exists|k: int| 0 <= k < order.len() && #[trigger] named(order, k) == p,
{
    let positions = Seq::new(order.len(), |k: int| named(order, k));
    assert(positions.no_duplicates()) by {
        assert forall|a: int, b: int|
            0 <= a < positions.len() && 0 <= b < positions.len() && a != b implies positions[a]
            != positions[b] by {
            if a < b {
                assert(named(order, a) != named(order, b));
            } else {
                assert(named(order, b) != named(order, a));
            }
        }
    }
    positions.unique_seq_to_set();
    vstd::set_lib::lemma_int_range(0, n);
    let range = vstd::set_lib::set_int_range(0, n);
    assert(positions.to_set().subset_of(range)) by {
        assert forall|x: int| positions.to_set().contains(x) implies range.contains(x) by {
            let k = choose|k: int| 0 <= k < positions.len() && positions[k] == x;
            assert(0 <= named(order, k) < n);
        }
    }
    vstd::set_lib::lemma_len_subset(positions.to_set(), range);
    vstd::set_lib::lemma_subset_equality(positions.to_set(), range);
    assert(range.contains(p));
    assert(positions.to_set().contains(p));
    let k = choose|k: int| 0 <= k < positions.len() && positions[k] == p;
    assert(named(order, k) == p);
}

/// Whether every position that `order` names may stand before the next one.
pub open spec fn chained<I, T, F: FnMut((&I, &T), (&I, &T)) -> Ordering>(
    compare: F,
    entries: Seq<(I, T)>,
    order: Seq<usize>,
) -> bool {
    forall|k: int, l: int|
        0 <= k && l == k + 1 && l < order.len() ==> placed(
            compare,
            entries,
            #[trigger] named(order, k),
            #[trigger] named(order, l),
        )
}

/// The entries in the order that `order` names.
pub open spec fn arranged<I, T>(entries: Seq<(I, T)>, order: Seq<usize>) -> Seq<(I, T)> {
    Seq::new(order.len(), |k: int| entries[named(order, k)])
}

/// Whether `ord` orders the entries totally, ties allowed: each pair has an
/// answer, the answer for the swapped pair is the mirrored one, and "not
/// after" carries over from pair to pair.
pub open spec fn total_preorder<I, T>(ord: spec_fn((I, T), (I, T)) -> Ordering) -> bool {
    &&& forall|a: (I, T), b: (I, T)|
        (#[trigger] ord(a, b) == Ordering::Greater) <==> ord(b, a) == Ordering::Less
    &&& forall|a: (I, T), b: (I, T)|
        (#[trigger] ord(a, b) == Ordering::Equal) ==> ord(b, a) == Ordering::Equal
    &&& forall|a: (I, T), b: (I, T), c: (I, T)|
        #[trigger] ord(a, b) != Ordering::Greater && #[trigger] ord(b, c) != Ordering::Greater
            ==> ord(a, c) != Ordering::Greater
}

/// Whether `compare` only ever returns what `ord` says.
pub open spec fn answers_by<I, T, F: FnMut((&I, &T), (&I, &T)) -> Ordering>(
    compare: F,
    ord: spec_fn((I, T), (I, T)) -> Ordering,
) -> bool {
    forall|a: (I, T), b: (I, T), o: Ordering| #[trigger]
        may_return(compare, a, b, o) ==> o == ord(a, b)
}

/// Asks `compare` whether `a` comes after `b`.
fn comes_after<I, T, F: FnMut((&I, &T), (&I, &T)) -> Ordering>(
    compare: &mut F,
    a: &(I, T),
    b: &(I, T),
) -> (after: bool)
    requires
        forall|x: (&I, &T), y: (&I, &T)| call_requires(*old(compare), (x, y)),
    ensures
        *final(compare) == *old(compare),
        after ==> seen_reversed(*old(compare), *a, *b),
        !after ==> seen_in_order(*old(compare), *a, *b),
{
    let ghost asked = *compare;
    let o = compare((&a.0, &a.1), (&b.0, &b.1));
    proof {
        assert(may_return(asked, *a, *b, o));
    }
    match o {
        Ordering::Greater => true,
        _ => false,
    }
}

/// The cell of `left` or `right` that a cell of the output was taken from:
/// the order, `true` for the first, and the cell in it.
pub open spec fn source(left: Seq<usize>, right: Seq<usize>, from: (bool, int)) -> int {
    if from.0 {
        named(left, from.1)
    } else {
        named(right, from.1)
    }
}

/// Whether every cell of `out` holds the position of the cell of `left` or
/// `right` that `origin` tells, one of the first `a` or the first `b`.
pub open spec fn sourced(
    left: Seq<usize>,
    right: Seq<usize>,
    out: Seq<usize>,
    origin: Seq<(bool, int)>,
    a: int,
    b: int,
) -> bool {
    &&& origin.len() == out.len()
    &&& forall|k: int|
        0 <= k < out.len() ==> #[trigger] named(out, k) == source(left, right, origin[k]) && 0
            <= origin[k].1 < (if origin[k].0 {
            a
        } else {
            b
        })
}

/// Whether no two cells of `order` name the same position.
pub open spec fn distinct(order: Seq<usize>) -> bool {
    forall|k: int, l: int|
        0 <= k < l < order.len() ==> #[trigger] named(order, k) != #[trigger] named(order, l)
}

/// Whether the last position of `out`, if there is one, may stand before the
/// position `next`.
pub open spec fn leads_to<I, T, F: FnMut((&I, &T), (&I, &T)) -> Ordering>(
    compare: F,
    entries: Seq<(I, T)>,
    out: Seq<usize>,
    next: int,
) -> bool {
    out.len() > 0 ==> placed(compare, entries, named(out, out.len() - 1), next)
}

/// The state of a merge: `out` holds the first `a` positions of `left` and the
/// first `b` positions of `right`, each taken from the cell that `origin`
/// tells; it is chained, and its last position may stand before the next
/// position of either order.
pub open spec fn merging<I, T, F: FnMut((&I, &T), (&I, &T)) -> Ordering>(
    compare: F,
    entries: Seq<(I, T)>,
    left: Seq<usize>,
    right: Seq<usize>,
    out: Seq<usize>,
    origin: Seq<(bool, int)>,
    a: int,
    b: int,
) -> bool {
    &&& 0 <= a <= left.len()
    &&& 0 <= b <= right.len()
    &&& out.len() == a + b
    &&& sourced(left, right, out, origin, a, b)
    &&& distinct(out)
    &&& chained(compare, entries, out)
    &&& a < left.len() ==> leads_to(compare, entries, out, named(left, a))
    &&& b < right.len() ==> leads_to(compare, entries, out, named(right, b))
}

/// Whether the two orders can be merged: each is chained and lists its half
/// of the positions from `lo` up to `hi`.
pub open spec fn mergeable<I, T, F: FnMut((&I, &T), (&I, &T)) -> Ordering>(
    compare: F,
    entries: Seq<(I, T)>,
    left: Seq<usize>,
    right: Seq<usize>,
    lo: int,
    mid: int,
    hi: int,
) -> bool {
    &&& 0 <= lo <= mid <= hi <= entries.len()
    &&& lists_range(left, lo, mid)
    &&& lists_range(right, mid, hi)
    &&& chained(compare, entries, left)
    &&& chained(compare, entries, right)
}

/// Taking the next position of the first order keeps the merge going,
/// provided the comparator did not put its entry after the next of the second.
proof fn lemma_take_left<I, T, F: FnMut((&I, &T), (&I, &T)) -> Ordering>(
    compare: F,
    entries: Seq<(I, T)>,
    left: Seq<usize>,
    right: Seq<usize>,
    lo: int,
    mid: int,
    hi: int,
    out: Seq<usize>,
    origin: Seq<(bool, int)>,
    a: int,
    b: int,
)
    requires
        mergeable(compare, entries, left, right, lo, mid, hi),
        merging(compare, entries, left, right, out, origin, a, b),
        a < left.len(),
        b < right.len() ==> seen_in_order(
            compare,
            entries[named(left, a)],
            entries[named(right, b)],
        ),
    ensures
        merging(
            compare,
            entries,
            left,
            right,
            out.push(left[a]),
            origin.push((true, a)),
            a + 1,
            b,
        ),
{
    let more = out.push(left[a]);
    let from = origin.push((true, a));
    let n = count(out);
    assert(named(more, n) == named(left, a));
    assert(lo <= named(left, a) < mid || a >= left.len());
    assert(mid <= named(right, b) < hi || b >= right.len());
    assert(sourced(left, right, more, from, a + 1, b)) by {
        assert forall|k: int| 0 <= k < more.len() implies #[trigger] named(more, k) == source(
            left,
            right,
            from[k],
        ) && 0 <= from[k].1 < (if from[k].0 {
            a + 1
        } else {
            b
        }) by {
            if k < n {
                assert(named(more, k) == named(out, k));
                assert(from[k] == origin[k]);
            }
        }
    }
    assert(distinct(more)) by {
        assert forall|k: int, l: int| 0 <= k < l < more.len() implies #[trigger] named(more, k)
            != #[trigger] named(more, l) by {
            assert(named(more, k) == named(out, k));
            if l < n {
                assert(named(more, l) == named(out, l));
            } else {
                let was = origin[k];
                assert(named(out, k) == source(left, right, was));
                if was.0 {
                    assert(lo <= named(left, was.1) < mid);
                } else {
                    assert(mid <= named(right, was.1) < hi);
                }
            }
        }
    }
    assert(chained(compare, entries, more)) by {
        assert forall|k: int, l: int| 0 <= k && l == k + 1 && l < more.len() implies placed(
            compare,
            entries,
            #[trigger] named(more, k),
            #[trigger] named(more, l),
        ) by {
            assert(named(more, k) == named(out, k));
            if l < n {
                assert(named(more, l) == named(out, l));
                assert(placed(compare, entries, named(out, k), named(out, l)));
            } else if n > 0 {
                assert(leads_to(compare, entries, out, named(more, l)));
            }
        }
    }
    if a + 1 < left.len() {
        assert(placed(compare, entries, named(left, a), named(left, a + 1)));
        assert(leads_to(compare, entries, more, named(left, a + 1)));
    }
    if b < right.len() {
        assert(named(left, a) < mid <= named(right, b));
        assert(placed(compare, entries, named(left, a), named(right, b)));
        assert(leads_to(compare, entries, more, named(right, b)));
    }
}

/// Taking the next position of the second order keeps the merge going,
/// provided the comparator put the next entry of the first after it.
proof fn lemma_take_right<I, T, F: FnMut((&I, &T), (&I, &T)) -> Ordering>(
    compare: F,
    entries: Seq<(I, T)>,
    left: Seq<usize>,
    right: Seq<usize>,
    lo: int,
    mid: int,
    hi: int,
    out: Seq<usize>,
    origin: Seq<(bool, int)>,
    a: int,
    b: int,
)
    requires
        mergeable(compare, entries, left, right, lo, mid, hi),
        merging(compare, entries, left, right, out, origin, a, b),
        b < right.len(),
        a < left.len() ==> seen_reversed(
            compare,
            entries[named(left, a)],
            entries[named(right, b)],
        ),
    ensures
        merging(
            compare,
            entries,
            left,
            right,
            out.push(right[b]),
            origin.push((false, b)),
            a,
            b + 1,
        ),
{
    let more = out.push(right[b]);
    let from = origin.push((false, b));
    let n = count(out);
    assert(named(more, n) == named(right, b));
    assert(lo <= named(left, a) < mid || a >= left.len());
    assert(mid <= named(right, b) < hi || b >= right.len());
    assert(sourced(left, right, more, from, a, b + 1)) by {
        assert forall|k: int| 0 <= k < more.len() implies #[trigger] named(more, k) == source(
            left,
            right,
            from[k],
        ) && 0 <= from[k].1 < (if from[k].0 {
            a
        } else {
            b + 1
        }) by {
            if k < n {
                assert(named(more, k) == named(out, k));
                assert(from[k] == origin[k]);
            }
        }
    }
    assert(distinct(more)) by {
        assert forall|k: int, l: int| 0 <= k < l < more.len() implies #[trigger] named(more, k)
            != #[trigger] named(more, l) by {
            assert(named(more, k) == named(out, k));
            if l < n {
                assert(named(more, l) == named(out, l));
            } else {
                let was = origin[k];
                assert(named(out, k) == source(left, right, was));
                if was.0 {
                    assert(lo <= named(left, was.1) < mid);
                } else {
                    assert(mid <= named(right, was.1) < hi);
                }
            }
        }
    }
    assert(chained(compare, entries, more)) by {
        assert forall|k: int, l: int| 0 <= k && l == k + 1 && l < more.len() implies placed(
            compare,
            entries,
            #[trigger] named(more, k),
            #[trigger] named(more, l),
        ) by {
            assert(named(more, k) == named(out, k));
            if l < n {
                assert(named(more, l) == named(out, l));
                assert(placed(compare, entries, named(out, k), named(out, l)));
            } else if n > 0 {
                assert(leads_to(compare, entries, out, named(more, l)));
            }
        }
    }
    if b + 1 < right.len() {
        assert(placed(compare, entries, named(right, b), named(right, b + 1)));
        assert(leads_to(compare, entries, more, named(right, b + 1)));
    }
    if a < left.len() {
        assert(named(left, a) < mid <= named(right, b));
        assert(placed(compare, entries, named(right, b), named(left, a)));
        assert(leads_to(compare, entries, more, named(left, a)));
    }
}

/// A merge that has used up both orders lists all their positions.
proof fn lemma_merge_done<I, T, F: FnMut((&I, &T), (&I, &T)) -> Ordering>(
    compare: F,
    entries: Seq<(I, T)>,
    left: Seq<usize>,
    right: Seq<usize>,
    lo: int,
    mid: int,
    hi: int,
    out: Seq<usize>,
    origin: Seq<(bool, int)>,
)
    requires
        mergeable(compare, entries, left, right, lo, mid, hi),
        merging(compare, entries, left, right, out, origin, count(left), count(right)),
    ensures
        lists_range(out, lo, hi),
{
    assert forall|k: int| 0 <= k < out.len() implies lo <= #[trigger] named(out, k) < hi by {
        let was = origin[k];
        assert(named(out, k) == source(left, right, was));
        if was.0 {
            assert(lo <= named(left, was.1) < mid);
        } else {
            assert(mid <= named(right, was.1) < hi);
        }
    }
}

/// Merges two chained orders, the first over the positions from `lo` up to
/// `mid` and the second over those from `mid` up to `hi`, into one. Of two
/// entries that `compare` ranks alike the one from the first order goes first.
fn merge_runs<I, T, F: FnMut((&I, &T), (&I, &T)) -> Ordering>(
    entries: &Vec<(I, T)>,
    compare: &mut F,
    left: Vec<usize>,
    right: Vec<usize>,
    Ghost(lo): Ghost<int>,
    Ghost(mid): Ghost<int>,
    Ghost(hi): Ghost<int>,
) -> (out: Vec<usize>)
    requires
        forall|x: (&I, &T), y: (&I, &T)| call_requires(*old(compare), (x, y)),
        mergeable(*old(compare), entries@, left@, right@, lo, mid, hi),
    ensures
        *final(compare) == *old(compare),
        lists_range(out@, lo, hi),
        chained(*old(compare), entries@, out@),
{
    let ghost asked = *compare;
    let ghost mut origin: Seq<(bool, int)> = Seq::empty();
    let mut out: Vec<usize> = Vec::new();
    let mut a: usize = 0;
    let mut b: usize = 0;
    while a < left.len() || b < right.len()
        invariant
            *compare == asked,
            forall|x: (&I, &T), y: (&I, &T)| call_requires(asked, (x, y)),
            mergeable(asked, entries@, left@, right@, lo, mid, hi),
            merging(asked, entries@, left@, right@, out@, origin, whole(a), whole(b)),
        decreases left@.len() - a + right@.len() - b,
    {
        let take_left = if a == left.len() {
            false
        } else if b == right.len() {
            true
        } else {
            proof {
                assert(lo <= named(left@, whole(a)) < mid);
                assert(mid <= named(right@, whole(b)) < hi);
            }
            !comes_after(compare, &entries[left[a]], &entries[right[b]])
        };
        if take_left {
            proof {
                lemma_take_left(
                    asked,
                    entries@,
                    left@,
                    right@,
                    lo,
                    mid,
                    hi,
                    out@,
                    origin,
                    whole(a),
                    whole(b),
                );
            }
            out.push(left[a]);
            proof {
                origin = origin.push((true, whole(a)));
            }
            a = a + 1;
        } else {
            proof {
                lemma_take_right(
                    asked,
                    entries@,
                    left@,
                    right@,
                    lo,
                    mid,
                    hi,
                    out@,
                    origin,
                    whole(a),
                    whole(b),
                );
            }
            out.push(right[b]);
            proof {
                origin = origin.push((false, whole(b)));
            }
            b = b + 1;
        }
    }
    proof {
        lemma_merge_done(asked, entries@, left@, right@, lo, mid, hi, out@, origin);
    }
    out
}

/// Orders the positions from `lo` up to `hi` by what `compare` says of their
/// entries, keeping entries that it ranks alike in the order of their
/// positions.
pub fn sort_range<I, T, F: FnMut((&I, &T), (&I, &T)) -> Ordering>(
    entries: &Vec<(I, T)>,
    compare: &mut F,
    lo: usize,
    hi: usize,
) -> (out: Vec<usize>)
    requires
        forall|x: (&I, &T), y: (&I, &T)| call_requires(*old(compare), (x, y)),
        lo <= hi <= entries@.len(),
    ensures
        *final(compare) == *old(compare),
        lists_range(out@, whole(lo), whole(hi)),
        chained(*old(compare), entries@, out@),
    decreases hi - lo,
{
    if hi - lo <= 1 {
        let mut out: Vec<usize> = Vec::new();
        if hi > lo {
            out.push(lo);
            assert(named(out@, 0) == lo);
        }
        out
    } else {
        let mid = lo + (hi - lo) / 2;
        let left = sort_range(entries, compare, lo, mid);
        let right = sort_range(entries, compare, mid, hi);
        merge_runs(entries, compare, left, right, Ghost(whole(lo)), Ghost(whole(mid)), Ghost(whole(hi)))
    }
}

/// An order that is chained by a comparator whose answers follow a total
/// preorder is sorted by that preorder, and it is stable: of two entries that
/// rank alike the one of the earlier position is named first.
pub proof fn lemma_chained_is_sorted_and_stable<I, T, F: FnMut((&I, &T), (&I, &T)) -> Ordering>(
    compare: F,
    entries: Seq<(I, T)>,
    order: Seq<usize>,
    ord: spec_fn((I, T), (I, T)) -> Ordering,
    i: int,
    j: int,
)
    requires
        lists_range(order, 0, count(entries)),
        chained(compare, entries, order),
        answers_by(compare, ord),
        total_preorder(ord),
        0 <= i < j < order.len(),
    ensures
        ord(entries[named(order, i)], entries[named(order, j)]) != Ordering::Greater,
        ord(entries[named(order, i)], entries[named(order, j)]) == Ordering::Equal ==> named(
            order,
            i,
        ) < named(order, j),
    decreases j - i,
{
    let x = entries[named(order, i)];
    let y = entries[named(order, i + 1)];
    let z = entries[named(order, j)];
    assert(placed(compare, entries, named(order, i), named(order, i + 1)));
    assert(0 <= named(order, i) < entries.len());
    assert(0 <= named(order, i + 1) < entries.len());
    if named(order, i) < named(order, i + 1) {
        let o = choose|o: Ordering| #[trigger]
            may_return(compare, x, y, o) && o != Ordering::Greater;
        assert(o == ord(x, y));
    } else {
        let o = choose|o: Ordering| #[trigger]
            may_return(compare, y, x, o) && o == Ordering::Greater;
        assert(o == ord(y, x));
        assert(ord(x, y) == Ordering::Less);
    }
    if i + 1 < j {
        lemma_chained_is_sorted_and_stable(compare, entries, order, ord, i + 1, j);
        assert(ord(y, z) != Ordering::Greater);
        assert(ord(x, z) != Ordering::Greater);
        if ord(x, z) == Ordering::Equal {
            assert(ord(z, x) == Ordering::Equal);
            assert(ord(z, y) != Ordering::Greater) by {
                assert(ord(z, x) != Ordering::Greater && ord(x, y) != Ordering::Greater);
            }
            assert(ord(y, x) != Ordering::Greater) by {
                assert(ord(y, z) != Ordering::Greater && ord(z, x) != Ordering::Greater);
            }
            assert(ord(x, y) == Ordering::Equal);
            assert(ord(y, z) == Ordering::Equal);
        }
    }
}

} // verus!
