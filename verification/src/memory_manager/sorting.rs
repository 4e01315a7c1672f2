//! Putting pairs of numbers in order, and why a strict order leaves no
//! choice.

use vstd::prelude::*;
use vstd::seq_lib::{to_multiset_build, to_multiset_insert};

verus! {

/// The order of pairs: by the first number, then by the second.
pub open spec fn pair_le(a: (usize, usize), b: (usize, usize)) -> bool {
    a.0 < b.0 || (a.0 == b.0 && a.1 <= b.1)
}

/// The pairs stand in order.
pub open spec fn pairs_sorted(pairs: Seq<(usize, usize)>) -> bool {
    forall|i: int, j: int|
        0 <= i < j < pairs.len() ==> pair_le(#[trigger] pairs[i], #[trigger] pairs[j])
}

/// Each element stands before those that are greater.
pub open spec fn strictly_sorted<T>(s: Seq<T>, less: spec_fn(T, T) -> bool) -> bool {
    forall|i: int, j: int| 0 <= i < j < s.len() ==> less(#[trigger] s[i], #[trigger] s[j])
}

/// Two sequences with the same elements, each in strict order, are one
/// sequence.
pub proof fn lemma_strict_order_unique<T>(a: Seq<T>, b: Seq<T>, less: spec_fn(T, T) -> bool)
    requires
        strictly_sorted(a, less),
        strictly_sorted(b, less),
        forall|x: T, y: T| !(#[trigger] less(x, y) && #[trigger] less(y, x)),
        forall|x: T| a.contains(x) <==> b.contains(x),
    ensures
        a == b,
    decreases a.len(),
{
    if a.len() == 0 {
        if b.len() > 0 {
            assert(b.contains(b[0]));
        }
        assert(a =~= b);
    } else {
        assert(a.contains(a[0]));
        assert(b.contains(a[0]));
        let k = choose|k: int| 0 <= k < b.len() && b[k] == a[0];
        assert(b.contains(b[0]));
        assert(a.contains(b[0]));
        let m = choose|m: int| 0 <= m < a.len() && a[m] == b[0];
        if k > 0 {
            assert(less(b[0], b[k]));
            if m > 0 {
                assert(less(a[0], a[m]));
            }
        }
        assert(a[0] == b[0]);
        let a1 = a.subrange(1, a.len() as int);
        let b1 = b.subrange(1, b.len() as int);
        assert forall|x: T| a1.contains(x) <==> b1.contains(x) by {
            if a1.contains(x) {
                let i = choose|i: int| 0 <= i < a1.len() && a1[i] == x;
                assert(a[i + 1] == x);
                assert(less(a[0], a[i + 1]));
                assert(a.contains(x));
                let j = choose|j: int| 0 <= j < b.len() && b[j] == x;
                assert(j > 0);
                assert(b1[j - 1] == x);
            }
            if b1.contains(x) {
                let i = choose|i: int| 0 <= i < b1.len() && b1[i] == x;
                assert(b[i + 1] == x);
                assert(less(b[0], b[i + 1]));
                assert(b.contains(x));
                let j = choose|j: int| 0 <= j < a.len() && a[j] == x;
                assert(j > 0);
                assert(a1[j - 1] == x);
            }
        }
        assert forall|i: int, j: int| 0 <= i < j < a1.len() implies less(
            #[trigger] a1[i],
            #[trigger] a1[j],
        ) by {
            assert(less(a[i + 1], a[j + 1]));
        }
        assert forall|i: int, j: int| 0 <= i < j < b1.len() implies less(
            #[trigger] b1[i],
            #[trigger] b1[j],
        ) by {
            assert(less(b[i + 1], b[j + 1]));
        }
        lemma_strict_order_unique(a1, b1, less);
        assert(a =~= seq![a[0]] + a1);
        assert(b =~= seq![b[0]] + b1);
    }
}

/// An element that can be told from each element of a sequence in strict
/// order has a place in it.
pub proof fn lemma_insert_sorted<T>(order: Seq<T>, x: T, less: spec_fn(T, T) -> bool) -> (result:
    Seq<T>)
    requires
        strictly_sorted(order, less),
        forall|a: T, b: T, c: T| #[trigger] less(a, b) && #[trigger] less(b, c) ==> less(a, c),
        forall|i: int| 0 <= i < order.len() ==> less(#[trigger] order[i], x) || less(x, order[i]),
    ensures
        strictly_sorted(result, less),
        forall|y: T| result.contains(y) <==> order.contains(y) || y == x,
    decreases order.len(),
{
    if order.len() == 0 {
        let result = seq![x];
        assert(result[0] == x);
        result
    } else if less(order.last(), x) {
        let result = order.push(x);
        assert forall|i: int, j: int| 0 <= i < j < result.len() implies less(
            #[trigger] result[i],
            #[trigger] result[j],
        ) by {
            assert(result[i] == order[i]);
            if j < order.len() {
                assert(result[j] == order[j]);
            } else if i < order.len() - 1 {
                assert(less(order[i], order[order.len() - 1]));
            }
        }
        assert forall|y: T| result.contains(y) <==> order.contains(y) || y == x by {
            if result.contains(y) {
                let k = choose|k: int| 0 <= k < result.len() && result[k] == y;
                if k < order.len() {
                    assert(order[k] == y);
                }
            }
            if order.contains(y) {
                let k = choose|k: int| 0 <= k < order.len() && order[k] == y;
                assert(result[k] == y);
            }
            if y == x {
                assert(result[order.len() as int] == x);
            }
        }
        result
    } else {
        let last = order.last();
        let front = order.drop_last();
        assert forall|i: int, j: int| 0 <= i < j < front.len() implies less(
            #[trigger] front[i],
            #[trigger] front[j],
        ) by {
            assert(less(order[i], order[j]));
        }
        assert forall|i: int| 0 <= i < front.len() implies less(#[trigger] front[i], x) || less(
            x,
            front[i],
        ) by {
            assert(front[i] == order[i]);
        }
        let placed = lemma_insert_sorted(front, x, less);
        let result = placed.push(last);
        assert forall|i: int, j: int| 0 <= i < j < result.len() implies less(
            #[trigger] result[i],
            #[trigger] result[j],
        ) by {
            assert(result[i] == placed[i]);
            if j < placed.len() {
                assert(result[j] == placed[j]);
            } else {
                assert(placed.contains(placed[i]));
                if placed[i] != x {
                    let k = choose|k: int| 0 <= k < front.len() && front[k] == placed[i];
                    assert(less(order[k], order[order.len() - 1]));
                }
            }
        }
        assert forall|y: T| result.contains(y) <==> order.contains(y) || y == x by {
            if result.contains(y) {
                let k = choose|k: int| 0 <= k < result.len() && result[k] == y;
                if k < placed.len() {
                    assert(placed[k] == y);
                    assert(placed.contains(y));
                    if y != x {
                        let m = choose|m: int| 0 <= m < front.len() && front[m] == y;
                        assert(order[m] == y);
                    }
                } else {
                    assert(order[order.len() - 1] == y);
                }
            }
            if order.contains(y) {
                let k = choose|k: int| 0 <= k < order.len() && order[k] == y;
                if k < front.len() {
                    assert(front[k] == y);
                    assert(front.contains(y));
                    assert(placed.contains(y));
                    let m = choose|m: int| 0 <= m < placed.len() && placed[m] == y;
                    assert(result[m] == y);
                } else {
                    assert(result[placed.len() as int] == y);
                }
            }
            if y == x {
                assert(placed.contains(x));
                let m = choose|m: int| 0 <= m < placed.len() && placed[m] == x;
                assert(result[m] == x);
            }
        }
        result
    }
}

/// Puts the pairs in order.
pub fn sort_pairs(pairs: &mut Vec<(usize, usize)>)
    ensures
        pairs_sorted(final(pairs)@),
        final(pairs)@.to_multiset() == old(pairs)@.to_multiset(),
        final(pairs)@.len() == old(pairs)@.len(),
{
    let mut sorted: Vec<(usize, usize)> = Vec::new();
    let mut k: usize = 0;
    let n = pairs.len();
    assert(pairs@.subrange(0, 0) =~= Seq::<(usize, usize)>::empty());
    while k < n
        invariant
            n == pairs@.len(),
            k <= n,
            sorted@.len() == k,
            pairs_sorted(sorted@),
            sorted@.to_multiset() == pairs@.subrange(0, k as int).to_multiset(),
        decreases n - k,
    {
        let pair = pairs[k];
        let mut at: usize = 0;
        while at < sorted.len() && (sorted[at].0 < pair.0 || (sorted[at].0 == pair.0
            && sorted[at].1 <= pair.1))
            invariant
                at <= sorted@.len(),
                forall|j: int| 0 <= j < at ==> pair_le(#[trigger] sorted@[j], pair),
            decreases sorted@.len() - at,
        {
            at += 1;
        }
        proof {
            let before = sorted@;
            let after = before.insert(at as int, pair);
            before.insert_ensures(at as int, pair);
            to_multiset_insert(before, at as int, pair);
            let seen = pairs@.subrange(0, k as int);
            assert(pairs@.subrange(0, k + 1) =~= seen.push(pair));
            to_multiset_build(seen, pair);
            assert forall|i: int, j: int| 0 <= i < j < after.len() implies pair_le(
                #[trigger] after[i],
                #[trigger] after[j],
            ) by {
                if j < at {
                    assert(after[i] == before[i] && after[j] == before[j]);
                } else if j == at {
                    assert(after[i] == before[i]);
                } else if i < at {
                    assert(after[i] == before[i] && after[j] == before[j - 1]);
                    assert(pair_le(before[i], before[j - 1]));
                } else if i == at {
                    assert(after[j] == before[j - 1]);
                    assert(!pair_le(before[at as int], pair));
                    assert(pair_le(before[at as int], before[j - 1]) || at == j - 1);
                } else {
                    assert(after[i] == before[i - 1] && after[j] == before[j - 1]);
                }
            }
        }
        sorted.insert(at, pair);
        k += 1;
    }
    proof {
        assert(pairs@.subrange(0, n as int) =~= pairs@);
    }
    *pairs = sorted;
}

} // verus!
