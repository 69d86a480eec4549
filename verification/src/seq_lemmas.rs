//! Small facts about sequences that the proofs of the crate share.

use vstd::prelude::*;

verus! {

/// A member of two sequences laid end to end is a member of one of them.
pub proof fn lemma_concat_contains<A>(a: Seq<A>, b: Seq<A>, x: A)
    ensures
        (a + b).contains(x) <==> a.contains(x) || b.contains(x),
{
    if (a + b).contains(x) {
        let i = choose|i: int| 0 <= i < (a + b).len() && (a + b)[i] == x;
        if i < a.len() {
            assert(a[i] == x);
        } else {
            assert(b[i - a.len()] == x);
        }
    }
    if a.contains(x) {
        let i = choose|i: int| 0 <= i < a.len() && a[i] == x;
        assert((a + b)[i] == x);
    }
    if b.contains(x) {
        let i = choose|i: int| 0 <= i < b.len() && b[i] == x;
        assert((a + b)[i + a.len()] == x);
    }
}

/// Whether `x` is among the first `i` elements of `order`.
pub open spec fn seen<A>(order: Seq<A>, i: int, x: A) -> bool {
    exists|j: int| 0 <= j < i && order[j] == x
}

/// One more element is seen with each step.
pub proof fn lemma_seen_step<A>(order: Seq<A>, i: int)
    requires
        0 <= i < order.len(),
    ensures
        forall|y: A| seen(order, i + 1, y) <==> seen(order, i, y) || y == order[i],
{
    assert forall|y: A| seen(order, i + 1, y) <==> seen(order, i, y) || y == order[i] by {
        if seen(order, i + 1, y) {
            let j = choose|j: int| 0 <= j < i + 1 && order[j] == y;
            if j < i {
                assert(seen(order, i, y));
            }
        }
        if seen(order, i, y) {
            let j = choose|j: int| 0 <= j < i && order[j] == y;
            assert(0 <= j < i + 1 && order[j] == y);
        }
        if y == order[i] {
            assert(order[i] == y);
        }
    }
}

/// The members of one more element of a sequence are the members so far and
/// that element.
pub proof fn lemma_take_insert<A>(s: Seq<A>, k: int)
    requires
        0 <= k < s.len(),
    ensures
        s.take(k + 1).to_set() == s.take(k).to_set().insert(s[k]),
        forall|y: A| s.take(k + 1).contains(y) <==> s.take(k).contains(y) || y == s[k],
{
    let done = s.take(k);
    let next = s.take(k + 1);
    assert forall|y: A| next.contains(y) <==> done.contains(y) || y == s[k] by {
        if next.contains(y) {
            let j = choose|j: int| 0 <= j < next.len() && next[j] == y;
            if j < k {
                assert(done[j] == y);
            }
        }
        if done.contains(y) {
            let j = choose|j: int| 0 <= j < done.len() && done[j] == y;
            assert(next[j] == y);
        }
        if y == s[k] {
            assert(next[k] == y);
        }
    }
    assert(next.to_set() =~= done.to_set().insert(s[k]));
}

} // verus!
