//! Rearrangements: the same things in another order.

use vstd::prelude::*;

verus! {

/// A rearrangement of the places below `n`: each place is taken once.
pub open spec fn is_shuffle(order: Seq<int>, n: nat) -> bool {
    &&& order.len() == n
    &&& forall|i: int| 0 <= i < n ==> 0 <= #[trigger] order[i] < n
    &&& forall|i: int, j: int|
        0 <= i < n && 0 <= j < n && i != j ==> #[trigger] order[i] != #[trigger] order[j]
    &&& forall|k: int| 0 <= k < n ==> #[trigger] taken(order, k)
}

/// Whether the place `k` is taken in `order`.
pub open spec fn taken(order: Seq<int>, k: int) -> bool {
    exists|i: int| 0 <= i < order.len() && #[trigger] order[i] == k
}

/// The things of `s` in another order: at place `i` stands what stood at
/// `order[i]`.
pub open spec fn shuffled<T>(s: Seq<T>, order: Seq<int>) -> Seq<T> {
    Seq::new(s.len(), |i: int| s[order[i]])
}

/// The rearrangement that turns a sequence round.
pub open spec fn backwards(n: nat) -> Seq<int> {
    Seq::new(n, |i: int| n - 1 - i)
}

/// What stood at `j` stands somewhere after the rearrangement.
pub proof fn lemma_shuffled_place<T>(s: Seq<T>, order: Seq<int>, j: int) -> (i: int)
    requires
        is_shuffle(order, s.len()),
        0 <= j < s.len(),
    ensures
        0 <= i < s.len(),
        order[i] == j,
        shuffled(s, order)[i] == s[j],
{
    assert(taken(order, j));
    choose|i: int| 0 <= i < order.len() && #[trigger] order[i] == j
}

/// Taking everything back to where it stood is a rearrangement too.
pub proof fn lemma_shuffle_back<T>(s: Seq<T>, order: Seq<int>) -> (back: Seq<int>)
    requires
        is_shuffle(order, s.len()),
    ensures
        is_shuffle(back, s.len()),
        shuffled(shuffled(s, order), back) == s,
{
    let n = s.len();
    let back = Seq::new(n, |k: int| choose|i: int| 0 <= i < n && #[trigger] order[i] == k);
    assert forall|k: int| 0 <= k < n implies 0 <= #[trigger] back[k] < n && order[back[k]]
        == k by {
        assert(taken(order, k));
    }
    assert forall|i: int| 0 <= i < n implies #[trigger] taken(back, i) by {
        let k = order[i];
        assert(order[back[k]] == k);
        assert(back[k] == i);
    }
    assert forall|i: int, j: int| 0 <= i < n && 0 <= j < n && i != j implies #[trigger] back[i]
        != #[trigger] back[j] by {
        assert(order[back[i]] == i);
        assert(order[back[j]] == j);
    }
    assert(shuffled(shuffled(s, order), back) =~= s) by {
        assert forall|k: int| 0 <= k < n implies shuffled(shuffled(s, order), back)[k] == s[k] by {
            assert(order[back[k]] == k);
        }
    }
    back
}

/// Turning a sequence round is a rearrangement.
pub proof fn lemma_backwards<T>(s: Seq<T>)
    ensures
        is_shuffle(backwards(s.len()), s.len()),
        shuffled(s, backwards(s.len())) == s.reverse(),
{
    let n = s.len() as int;
    let order = backwards(s.len());
    assert forall|k: int| 0 <= k < n implies #[trigger] taken(order, k) by {
        assert(order[n - 1 - k] == k);
    }
    assert(shuffled(s, order) =~= s.reverse());
}

} // verus!
