use vstd::prelude::*;

verus! {

/// Values by which candidates are ranked, best first.
///
/// `above` is a strict weak order: no two values rank above each other, and
/// where `a` does not rank above `b` nor `b` above `c`, `a` does not rank
/// above `c`. Values of which neither ranks above the other are tied.
pub trait Ranked: Sized {
    /// `self` ranks strictly above `other`.
    spec fn above(&self, other: &Self) -> bool;

    /// Decides `above`.
    fn is_above(&self, other: &Self) -> (b: bool)
        ensures
            b == self.above(other),
    ;

    /// `above` is a strict weak order.
    proof fn order_laws(a: &Self, b: &Self, c: &Self)
        ensures
            !(a.above(b) && b.above(a)),
            !a.above(b) && !b.above(c) ==> !a.above(c),
    ;
}

impl Ranked for usize {
    open spec fn above(&self, other: &Self) -> bool {
        *self > *other
    }

    fn is_above(&self, other: &Self) -> (b: bool) {
        *self > *other
    }

    proof fn order_laws(a: &Self, b: &Self, c: &Self) {
    }
}

/// The key at position `i` comes before the key at position `j` in a ranking:
/// it ranks above it, or the two are tied and `i` is the earlier position.
pub open spec fn comes_before<K: Ranked>(keys: Seq<K>, i: int, j: int) -> bool {
    keys[i].above(&keys[j]) || (!keys[j].above(&keys[i]) && i < j)
}

/// Where the key at position `new` goes into `order`, a ranking of earlier
/// positions: behind every position whose key it does not rank above.
pub open spec fn insertion_point<K: Ranked>(keys: Seq<K>, order: Seq<int>, new: int) -> int
    decreases order.len(),
{
    if order.len() == 0 {
        0
    } else if keys[new].above(&keys[order.last()]) {
        insertion_point(keys, order.drop_last(), new)
    } else {
        order.len() as int
    }
}

/// The ranking of the first `n` keys: their positions, best first, ties in the
/// order of the positions.
pub open spec fn ranking_of_first<K: Ranked>(keys: Seq<K>, n: nat) -> Seq<int>
    decreases n,
{
    if n == 0 {
        Seq::empty()
    } else {
        let earlier = ranking_of_first(keys, (n - 1) as nat);
        earlier.insert(insertion_point(keys, earlier, n - 1), n - 1)
    }
}

/// The ranking of `keys`: the positions of all keys, best first, ties in the
/// order of the positions.
pub open spec fn ranking<K: Ranked>(keys: Seq<K>) -> Seq<int> {
    ranking_of_first(keys, keys.len())
}

/// `order` lists each of the first `n` positions of `keys` once, and each
/// position in it comes before all that follow it.
pub open spec fn is_ranking_of_first<K: Ranked>(keys: Seq<K>, n: nat, order: Seq<int>) -> bool {
    &&& order.len() == n
    &&& forall|p: int| 0 <= p < order.len() ==> 0 <= #[trigger] order[p] < n
    &&& forall|i: int| 0 <= i < n ==> order.contains(i)
    &&& forall|p: int, q: int|
        0 <= p < q < order.len() ==> comes_before(keys, #[trigger] order[p], #[trigger] order[q])
}

/// `order` is a ranking of all of `keys`.
pub open spec fn is_ranking<K: Ranked>(keys: Seq<K>, order: Seq<int>) -> bool {
    is_ranking_of_first(keys, keys.len(), order)
}

/// The insertion point lies inside the ranking; the key does not rank above
/// the entry before it, and ranks above every entry from it on.
pub proof fn lemma_insertion_point<K: Ranked>(keys: Seq<K>, order: Seq<int>, new: int)
    ensures
        0 <= insertion_point(keys, order, new) <= order.len(),
        insertion_point(keys, order, new) > 0 ==> !keys[new].above(
            &keys[order[insertion_point(keys, order, new) - 1]],
        ),
        forall|q: int|
            insertion_point(keys, order, new) <= q < order.len() ==> keys[new].above(
                &keys[#[trigger] order[q]],
            ),
    decreases order.len(),
{
    if order.len() > 0 && keys[new].above(&keys[order.last()]) {
        let shorter = order.drop_last();
        lemma_insertion_point(keys, shorter, new);
        assert forall|q: int|
            insertion_point(keys, order, new) <= q < order.len() implies keys[new].above(
            &keys[#[trigger] order[q]],
        ) by {
            if q < shorter.len() {
                assert(order[q] == shorter[q]);
            }
        }
    }
}

/// The ranking of the first `n` keys is a ranking of them.
pub proof fn lemma_ranking_of_first<K: Ranked>(keys: Seq<K>, n: nat)
    requires
        n <= keys.len(),
    ensures
        is_ranking_of_first(keys, n, ranking_of_first(keys, n)),
    decreases n,
{
    if n > 0 {
        let new = n - 1;
        let earlier = ranking_of_first(keys, new as nat);
        lemma_ranking_of_first(keys, new as nat);
        lemma_insertion_point(keys, earlier, new);
        let at = insertion_point(keys, earlier, new);
        let order = earlier.insert(at, new);
        assert(order == ranking_of_first(keys, n));
        assert forall|i: int| 0 <= i < n implies order.contains(i) by {
            if i == new {
                assert(order[at] == new);
            } else {
                assert(earlier.contains(i));
                let p = choose|p: int| 0 <= p < earlier.len() && earlier[p] == i;
                if p < at {
                    assert(order[p] == i);
                } else {
                    assert(order[p + 1] == i);
                }
            }
        }
        assert forall|p: int, q: int| 0 <= p < q < order.len() implies comes_before(
            keys,
            #[trigger] order[p],
            #[trigger] order[q],
        ) by {
            if q == at {
                // an earlier entry against the new one
                assert(order[p] == earlier[p]);
                if p < at - 1 {
                    assert(comes_before(keys, earlier[p], earlier[at - 1]));
                }
                K::order_laws(&keys[earlier[at - 1]], &keys[earlier[p]], &keys[earlier[p]]);
                K::order_laws(&keys[new], &keys[earlier[at - 1]], &keys[earlier[p]]);
            } else if p == at {
                // the new entry against a later one
                assert(order[q] == earlier[q - 1]);
                K::order_laws(&keys[new], &keys[earlier[q - 1]], &keys[new]);
            } else {
                let p0 = if p < at { p } else { p - 1 };
                let q0 = if q < at { q } else { q - 1 };
                assert(order[p] == earlier[p0]);
                assert(order[q] == earlier[q0]);
            }
        }
    }
}

/// There is one ranking only: whatever lists each of the first `n` positions
/// once, each before all that it comes before, is the ranking of the first `n`
/// keys.
pub proof fn lemma_ranking_of_first_unique<K: Ranked>(keys: Seq<K>, n: nat, order: Seq<int>)
    requires
        n <= keys.len(),
        is_ranking_of_first(keys, n, order),
    ensures
        order == ranking_of_first(keys, n),
    decreases n,
{
    if n == 0 {
        assert(order =~= Seq::<int>::empty());
    } else {
        let new = n - 1;
        assert(order.contains(new));
        let at = choose|at: int| 0 <= at < order.len() && order[at] == new;
        let rest = order.remove(at);
        assert forall|q: int| 0 <= q < order.len() && q != at implies order[q] != new by {
            K::order_laws(&keys[new], &keys[new], &keys[new]);
            if q < at {
                assert(comes_before(keys, order[q], order[at]));
            } else {
                assert(comes_before(keys, order[at], order[q]));
            }
        }
        assert forall|q: int| 0 <= q < rest.len() implies 0 <= #[trigger] rest[q] < new by {
            if q < at {
                assert(rest[q] == order[q]);
            } else {
                assert(rest[q] == order[q + 1]);
            }
        }
        assert forall|i: int| 0 <= i < new implies rest.contains(i) by {
            assert(order.contains(i));
            let q = choose|q: int| 0 <= q < order.len() && order[q] == i;
            if q < at {
                assert(rest[q] == i);
            } else {
                assert(rest[q - 1] == i);
            }
        }
        assert forall|p: int, q: int| 0 <= p < q < rest.len() implies comes_before(
            keys,
            #[trigger] rest[p],
            #[trigger] rest[q],
        ) by {
            let p0 = if p < at { p } else { p + 1 };
            let q0 = if q < at { q } else { q + 1 };
            assert(rest[p] == order[p0]);
            assert(rest[q] == order[q0]);
            assert(comes_before(keys, order[p0], order[q0]));
        }
        lemma_ranking_of_first_unique(keys, new as nat, rest);
        let point = insertion_point(keys, rest, new);
        lemma_insertion_point(keys, rest, new);
        if at < point {
            assert(rest[point - 1] == order[point]);
            assert(comes_before(keys, order[at], order[point]));
        } else if at > point {
            assert(rest[point] == order[point]);
            assert(comes_before(keys, order[point], order[at]));
            K::order_laws(&keys[order[point]], &keys[new], &keys[new]);
        }
        assert(order =~= rest.insert(at, new));
    }
}

/// There is one ranking only: every ranking of `keys` is `ranking(keys)`.
pub proof fn lemma_ranking_unique<K: Ranked>(keys: Seq<K>, order: Seq<int>)
    requires
        is_ranking(keys, order),
    ensures
        order == ranking(keys),
{
    lemma_ranking_of_first_unique(keys, keys.len(), order);
}

/// In a ranking no key ranks above one that stands before it.
pub proof fn lemma_ranking_sorted<K: Ranked>(keys: Seq<K>, order: Seq<int>, p: int, q: int)
    requires
        is_ranking(keys, order),
        0 <= p <= q < order.len(),
    ensures
        !keys[order[q]].above(&keys[order[p]]),
{
    if p < q {
        assert(comes_before(keys, order[p], order[q]));
    }
    K::order_laws(&keys[order[p]], &keys[order[q]], &keys[order[p]]);
}

/// The positions in `order`, as mathematical integers.
pub open spec fn positions(order: Seq<usize>) -> Seq<int> {
    order.map_values(|i: usize| i as int)
}

/// Ranks `keys`: the positions of the keys, best first; tied keys keep the
/// order in which they stand in `keys`.
pub fn rank<K: Ranked>(keys: &Vec<K>) -> (order: Vec<usize>)
    ensures
        positions(order@) == ranking(keys@),
        is_ranking(keys@, positions(order@)),
{
    let mut order: Vec<usize> = Vec::new();
    let mut n: usize = 0;
    assert(positions(order@) =~= Seq::<int>::empty());
    while n < keys.len()
        invariant
            n <= keys.len(),
            positions(order@) == ranking_of_first(keys@, n as nat),
        decreases keys.len() - n,
    {
        proof {
            lemma_ranking_of_first(keys@, n as nat);
        }
        let ghost earlier = positions(order@);
        let mut at: usize = order.len();
        assert(earlier.take(at as int) =~= earlier);
        while at > 0 && keys[n].is_above(&keys[order[at - 1]])
            invariant
                at <= order.len(),
                n < keys.len(),
                earlier == positions(order@),
                is_ranking_of_first(keys@, n as nat, earlier),
                insertion_point(keys@, earlier, n as int) == insertion_point(
                    keys@,
                    earlier.take(at as int),
                    n as int,
                ),
            decreases at,
        {
            assert(earlier.take(at as int).drop_last() =~= earlier.take(at - 1));
            at -= 1;
        }
        order.insert(at, n);
        assert(positions(order@) =~= earlier.insert(at as int, n as int));
        n += 1;
    }
    proof {
        lemma_ranking_of_first(keys@, keys@.len());
    }
    order
}

} // verus!
