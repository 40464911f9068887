//! Mutable references to all elements of a vector at once.

use vstd::prelude::*;

verus! {

/// Returns a mutable reference to every element of the vector, in their
/// order. What is written through the reference of rank `k` becomes the
/// element of rank `k`.
#[verifier::loop_isolation(false)]
pub(crate) fn each_mut<'a, X>(v: &'a mut Vec<X>) -> (out: Vec<&'a mut X>)
    ensures
        out@.len() == old(v)@.len(),
        forall|k: int| 0 <= k < out@.len() ==> *(#[trigger] out@[k]) == old(v)@[k],
        final(v)@ == Seq::new(out@.len(), |k: int| *final(out@[k])),
{
    let ghost start = v@;
    let mut out: Vec<&'a mut X> = Vec::new();
    let mut rest: &'a mut [X] = v.as_mut_slice();
    let ghost whole = rest;
    proof {
        assert(Seq::new(out@.len(), |k: int| *final(out@[k])) + final(rest)@ =~= final(rest)@);
    }
    while rest.len() > 0
        invariant
            out@.len() + rest@.len() == start.len(),
            rest@ == start.subrange(out@.len() as int, start.len() as int),
            forall|k: int| 0 <= k < out@.len() ==> *(#[trigger] out@[k]) == start[k],
            final(whole)@ == Seq::new(out@.len(), |k: int| *final(out@[k])) + final(rest)@,
        decreases rest@.len(),
    {
        let ghost before_out = out@;
        let ghost before_rest = rest;
        let taken = rest;
        let (head, tail) = taken.split_at_mut(1);
        let ghost g_head = head;
        let ghost g_tail = tail;
        proof {
            assert(final(before_rest)@ == final(g_head)@ + final(g_tail)@);
        }
        let first = head.first_mut().unwrap();
        let ghost g_first = first;
        proof {
            assert(final(g_head)@ =~= seq![*final(g_first)]);
        }
        out.push(first);
        rest = tail;
        proof {
            assert(Seq::new(out@.len(), |k: int| *final(out@[k])) =~= Seq::new(
                before_out.len(),
                |k: int| *final(before_out[k]),
            ) + seq![*final(g_first)]);
            assert(rest@ =~= start.subrange(out@.len() as int, start.len() as int));
        }
    }
    out
}

} // verus!
