//! Selecting and ranking the items of a list.

use vstd::prelude::*;

verus! {

/// What a filter keeps of one item more.
pub proof fn lemma_filter_next<A>(s: Seq<A>, keep: spec_fn(A) -> bool, i: int)
    requires
        0 <= i < s.len(),
    ensures
        s.take(i + 1).filter(keep) == if keep(s[i]) {
            s.take(i).filter(keep).push(s[i])
        } else {
            s.take(i).filter(keep)
        },
{
    reveal(Seq::filter);
    assert(s.take(i + 1).drop_last() == s.take(i));
    assert(s.take(i + 1).last() == s[i]);
}

/// A filter keeps nothing of no item.
pub proof fn lemma_filter_none<A>(s: Seq<A>, keep: spec_fn(A) -> bool)
    ensures
        s.take(0).filter(keep) == Seq::<A>::empty(),
{
    reveal(Seq::filter);
}

/// A filter whose condition one item alone meets keeps that item.
pub proof fn lemma_filter_one<A>(s: Seq<A>, keep: spec_fn(A) -> bool, k: int)
    requires
        0 <= k < s.len(),
        forall|i: int| 0 <= i < s.len() ==> (keep(#[trigger] s[i]) <==> i == k),
    ensures
        s.filter(keep) == seq![s[k]],
    decreases s.len(),
{
    reveal(Seq::filter);
    let front = s.drop_last();
    if k < front.len() {
        assert forall|i: int| 0 <= i < front.len() implies (keep(#[trigger] front[i]) <==> i == k) by {
            assert(front[i] == s[i]);
        }
        lemma_filter_one(front, keep, k);
        assert(!keep(s[s.len() - 1]));
    } else {
        assert forall|i: int| 0 <= i < front.len() implies !keep(#[trigger] front[i]) by {
            assert(front[i] == s[i]);
        }
        lemma_filter_empty(front, keep);
    }
}

/// A filter whose condition no item meets keeps nothing.
pub proof fn lemma_filter_empty<A>(s: Seq<A>, keep: spec_fn(A) -> bool)
    requires
        forall|i: int| 0 <= i < s.len() ==> !keep(#[trigger] s[i]),
    ensures
        s.filter(keep) == Seq::<A>::empty(),
{
    lemma_filter_members(s, keep);
    if s.filter(keep).len() > 0 {
        let x = s.filter(keep)[0];
        let i = choose|i: int| 0 <= i < s.len() && s[i] == x;
        assert(!keep(s[i]));
    }
}

/// Filters whose conditions agree on all items keep the same ones.
pub proof fn lemma_filter_agrees<A>(s: Seq<A>, one: spec_fn(A) -> bool, other: spec_fn(A) -> bool)
    requires
        forall|i: int| 0 <= i < s.len() ==> one(#[trigger] s[i]) == other(s[i]),
    ensures
        s.filter(one) == s.filter(other),
    decreases s.len(),
{
    reveal(Seq::filter);
    if s.len() > 0 {
        let front = s.drop_last();
        assert forall|i: int| 0 <= i < front.len() implies one(#[trigger] front[i]) == other(
            front[i],
        ) by {
            assert(front[i] == s[i]);
        }
        lemma_filter_agrees(front, one, other);
        assert(one(s[s.len() - 1]) == other(s[s.len() - 1]));
    }
}

/// A filter of a list with one item more keeps what it kept, and that item if it
/// meets the condition.
pub proof fn lemma_filter_push<A>(s: Seq<A>, keep: spec_fn(A) -> bool, a: A)
    ensures
        s.push(a).filter(keep) == if keep(a) {
            s.filter(keep).push(a)
        } else {
            s.filter(keep)
        },
{
    reveal(Seq::filter);
    assert(s.push(a).drop_last() == s);
}

/// A filter keeps items of the list that meet its condition, and all of them.
pub proof fn lemma_filter_members<A>(s: Seq<A>, keep: spec_fn(A) -> bool)
    ensures
        s.filter(keep).len() <= s.len(),
        forall|k: int|
            0 <= k < s.filter(keep).len() ==> keep(#[trigger] s.filter(keep)[k]) && s.contains(
                s.filter(keep)[k],
            ),
        forall|i: int|
            0 <= i < s.len() && keep(#[trigger] s[i]) ==> s.filter(keep).contains(s[i]),
    decreases s.len(),
{
    reveal(Seq::filter);
    if s.len() > 0 {
        let front = s.drop_last();
        lemma_filter_members(front, keep);
        assert forall|k: int| 0 <= k < s.filter(keep).len() implies keep(
            #[trigger] s.filter(keep)[k],
        ) && s.contains(s.filter(keep)[k]) by {
            if k < front.filter(keep).len() {
                let x = front.filter(keep)[k];
                assert(front.contains(x));
                let j = choose|j: int| 0 <= j < front.len() && front[j] == x;
                assert(s[j] == x);
            } else {
                assert(s.filter(keep)[k] == s.last());
                assert(s[s.len() - 1] == s.last());
            }
        }
        assert forall|i: int| 0 <= i < s.len() && keep(#[trigger] s[i]) implies s.filter(
            keep,
        ).contains(s[i]) by {
            if i < front.len() {
                assert(front[i] == s[i]);
                assert(front.filter(keep).contains(s[i]));
                let j = choose|j: int|
                    0 <= j < front.filter(keep).len() && front.filter(keep)[j] == s[i];
                assert(s.filter(keep)[j] == s[i]);
            } else {
                assert(s.filter(keep).last() == s[i]);
            }
        }
    }
}

// ---- ranking ----

/// The places of a ranking with the place of one more key, put behind all keys
/// that are not smaller.
pub open spec fn ranked_in(places: Seq<int>, keys: Seq<int>, k: int) -> Seq<int>
    decreases places.len(),
{
    if places.len() == 0 || keys[places.last()] >= keys[k] {
        places.push(k)
    } else {
        ranked_in(places.drop_last(), keys, k).push(places.last())
    }
}

/// The places of the first `n` keys, from the largest key to the smallest;
/// equal keys stay in the order in which they come.
pub open spec fn ranking_of(keys: Seq<int>, n: nat) -> Seq<int>
    decreases n,
{
    if n == 0 {
        Seq::empty()
    } else {
        ranked_in(ranking_of(keys, (n - 1) as nat), keys, n - 1)
    }
}

/// The places of all keys, from the largest key to the smallest.
pub open spec fn ranking(keys: Seq<int>) -> Seq<int> {
    ranking_of(keys, keys.len())
}

/// The items of a list, from the one with the largest key to the one with the
/// smallest; items with equal keys stay in their order.
pub open spec fn ranked<A>(items: Seq<A>, keys: Seq<int>) -> Seq<A> {
    ranking(keys).map_values(|k: int| items[k])
}

/// The first items of a list, up to a number of them.
pub open spec fn first_items<A>(items: Seq<A>, limit: int) -> Seq<A> {
    if items.len() <= limit {
        items
    } else {
        items.take(limit)
    }
}

proof fn lemma_ranked_in(places: Seq<int>, keys: Seq<int>, k: int)
    requires
        forall|i: int| 0 <= i < places.len() ==> 0 <= #[trigger] places[i] < k,
        forall|i: int, j: int|
            0 <= i < j < places.len() ==> in_order(keys, #[trigger] places[i], #[trigger] places[j]),
    ensures
        ranked_in(places, keys, k).len() == places.len() + 1,
        forall|i: int, j: int|
            0 <= i < j < places.len() + 1 ==> in_order(
                keys,
                #[trigger] ranked_in(places, keys, k)[i],
                #[trigger] ranked_in(places, keys, k)[j],
            ),
        forall|i: int|
            0 <= i < places.len() + 1 ==> (#[trigger] ranked_in(places, keys, k)[i] == k
                || places.contains(ranked_in(places, keys, k)[i])),
        ranked_in(places, keys, k).contains(k),
        forall|i: int|
            0 <= i < places.len() ==> ranked_in(places, keys, k).contains(#[trigger] places[i]),
    decreases places.len(),
{
    let r = ranked_in(places, keys, k);
    if places.len() == 0 || keys[places.last()] >= keys[k] {
        assert(r[places.len() as int] == k);
        assert forall|i: int| 0 <= i < places.len() implies r.contains(#[trigger] places[i]) by {
            assert(r[i] == places[i]);
        }
        assert forall|i: int, j: int| 0 <= i < j < r.len() implies in_order(
            keys,
            #[trigger] r[i],
            #[trigger] r[j],
        ) by {
            assert(r[i] == places[i]);
            if j == places.len() {
                if i < places.len() - 1 {
                    assert(in_order(keys, places[i], places[places.len() - 1]));
                }
            }
        }
    } else {
        let front = places.drop_last();
        assert forall|i: int| 0 <= i < front.len() implies 0 <= #[trigger] front[i] < k by {
            assert(front[i] == places[i]);
        }
        assert forall|i: int, j: int| 0 <= i < j < front.len() implies in_order(
            keys,
            #[trigger] front[i],
            #[trigger] front[j],
        ) by {
            assert(in_order(keys, places[i], places[j]));
        }
        lemma_ranked_in(front, keys, k);
        let q = ranked_in(front, keys, k);
        assert(r == q.push(places.last()));
        let n = places.len() - 1;
        assert forall|i: int, j: int| 0 <= i < j < r.len() implies in_order(
            keys,
            #[trigger] r[i],
            #[trigger] r[j],
        ) by {
            if j < q.len() {
                assert(in_order(keys, q[i], q[j]));
            } else {
                assert(r[j] == places[n]);
                if q[i] != k {
                    assert(front.contains(q[i]));
                    let m = choose|m: int| 0 <= m < front.len() && front[m] == q[i];
                    assert(in_order(keys, places[m], places[n]));
                }
            }
        }
        assert forall|i: int| 0 <= i < places.len() + 1 implies (#[trigger] r[i] == k
            || places.contains(r[i])) by {
            if i < q.len() {
                if q[i] != k {
                    assert(front.contains(q[i]));
                    let m = choose|m: int| 0 <= m < front.len() && front[m] == q[i];
                    assert(places[m] == r[i]);
                }
            } else {
                assert(places[n] == r[i]);
            }
        }
        assert(q.contains(k));
        let z = choose|z: int| 0 <= z < q.len() && q[z] == k;
        assert(r[z] == k);
        assert forall|i: int| 0 <= i < places.len() implies r.contains(#[trigger] places[i]) by {
            if i < n {
                assert(front[i] == places[i]);
                assert(q.contains(front[i]));
                let m = choose|m: int| 0 <= m < q.len() && q[m] == front[i];
                assert(r[m] == places[i]);
            } else {
                assert(r[q.len() as int] == places[i]);
            }
        }
    }
}

/// Place `a` comes before place `b` in a ranking: its key is larger, or the
/// keys are equal and it is the earlier place.
pub open spec fn in_order(keys: Seq<int>, a: int, b: int) -> bool {
    keys[a] > keys[b] || (keys[a] == keys[b] && a < b)
}

proof fn lemma_ranking_of(keys: Seq<int>, n: nat)
    requires
        n <= keys.len(),
    ensures
        ranking_of(keys, n).len() == n,
        forall|i: int| 0 <= i < n ==> 0 <= #[trigger] ranking_of(keys, n)[i] < n,
        forall|i: int, j: int|
            0 <= i < j < n ==> in_order(
                keys,
                #[trigger] ranking_of(keys, n)[i],
                #[trigger] ranking_of(keys, n)[j],
            ),
        forall|k: int| 0 <= k < n ==> #[trigger] ranking_of(keys, n).contains(k),
    decreases n,
{
    if n > 0 {
        let before = ranking_of(keys, (n - 1) as nat);
        lemma_ranking_of(keys, (n - 1) as nat);
        lemma_ranked_in(before, keys, n - 1);
        let after = ranking_of(keys, n);
        assert forall|i: int| 0 <= i < n implies 0 <= #[trigger] after[i] < n by {
            if after[i] != n - 1 {
                assert(before.contains(after[i]));
                let m = choose|m: int| 0 <= m < before.len() && before[m] == after[i];
                assert(0 <= before[m] < n - 1);
            }
        }
        assert forall|k: int| 0 <= k < n implies #[trigger] after.contains(k) by {
            if k < n - 1 {
                assert(before.contains(k));
                let m = choose|m: int| 0 <= m < before.len() && before[m] == k;
                assert(after.contains(before[m]));
            }
        }
    }
}

/// A ranking holds each place once, a larger key before a smaller one, and of
/// equal keys the earlier one first.
pub proof fn law_ranking(keys: Seq<int>)
    ensures
        ranking(keys).len() == keys.len(),
        forall|i: int| 0 <= i < keys.len() ==> 0 <= #[trigger] ranking(keys)[i] < keys.len(),
        forall|i: int, j: int|
            0 <= i < j < keys.len() ==> in_order(
                keys,
                #[trigger] ranking(keys)[i],
                #[trigger] ranking(keys)[j],
            ),
        forall|k: int| 0 <= k < keys.len() ==> #[trigger] ranking(keys).contains(k),
{
    lemma_ranking_of(keys, keys.len());
}

/// The values of a list of keys.
pub open spec fn key_views(keys: Seq<i128>) -> Seq<int> {
    Seq::new(keys.len(), |i: int| keys[i] as int)
}

/// The values of a list of places.
pub open spec fn place_views(places: Seq<usize>) -> Seq<int> {
    Seq::new(places.len(), |i: int| places[i] as int)
}

/// Ranks keys, the largest first.
pub fn rank(keys: &Vec<i128>) -> (r: Vec<usize>)
    ensures
        place_views(r@) == ranking(key_views(keys@)),
        r.len() == keys.len(),
        forall|i: int| 0 <= i < r.len() ==> #[trigger] r[i] < keys.len(),
{
    let mut out: Vec<usize> = Vec::new();
    let mut n: usize = 0;
    let ghost all = key_views(keys@);
    assert(place_views(out@) == ranking_of(all, 0));
    while n < keys.len()
        invariant
            n <= keys.len(),
            all == key_views(keys@),
            place_views(out@) == ranking_of(all, n as nat),
        decreases keys.len() - n,
    {
        let ghost places = place_views(out@);
        let ghost done = ranked_in(places, all, n as int);
        proof {
            lemma_ranking_of(all, n as nat);
            assert forall|i: int| 0 <= i < out.len() implies (#[trigger] out[i]) < n by {
                assert(places[i] == out[i]);
            }
        }
        let mut at: usize = out.len();
        assert(out@.take(at as int) == out@);
        assert(places.take(at as int) == places);
        assert(places.skip(at as int) == Seq::<int>::empty());
        assert(done + places.skip(at as int) == done);
        while at > 0 && keys[out[at - 1]] < keys[n]
            invariant
                at <= out.len(),
                n < keys.len(),
                all == key_views(keys@),
                places == place_views(out@),
                forall|i: int| 0 <= i < out.len() ==> #[trigger] out[i] < n,
                done == ranked_in(places.take(at as int), all, n as int) + places.skip(at as int),
            decreases at,
        {
            proof {
                let head = places.take(at as int);
                assert(head.last() == out[at - 1]);
                assert(head.drop_last() == places.take(at - 1));
                assert(ranked_in(head, all, n as int) == ranked_in(
                    places.take(at - 1),
                    all,
                    n as int,
                ).push(head.last()));
                assert(ranked_in(places.take(at - 1), all, n as int).push(head.last())
                    + places.skip(at as int) == ranked_in(places.take(at - 1), all, n as int)
                    + places.skip(at - 1));
            }
            at = at - 1;
        }
        proof {
            let head = places.take(at as int);
            if at > 0 {
                assert(head.last() == out[at - 1]);
            }
            assert(ranked_in(head, all, n as int) == head.push(n as int));
            assert(place_views(out@.insert(at as int, n)) == head.push(n as int) + places.skip(
                at as int,
            ));
        }
        out.insert(at, n);
        n = n + 1;
    }
    proof {
        law_ranking(all);
        assert forall|i: int| 0 <= i < out.len() implies #[trigger] out[i] < keys.len() by {
            assert(place_views(out@)[i] == out[i]);
        }
    }
    out
}

/// Ranking a list keeps its items and puts them in order: as many as before, each at a
/// place of its own, a larger key before a smaller one, and of equal keys the earlier one
/// first.
pub proof fn law_ranked<A>(items: Seq<A>, keys: Seq<int>)
    requires
        items.len() == keys.len(),
    ensures
        ranked(items, keys).len() == items.len(),
        forall|i: int|
            0 <= i < items.len() ==> 0 <= #[trigger] ranking(keys)[i] < items.len() && ranked(
                items,
                keys,
            )[i] == items[ranking(keys)[i]],
        forall|i: int, j: int|
            0 <= i < j < items.len() ==> {
                let (a, b) = (#[trigger] ranking(keys)[i], #[trigger] ranking(keys)[j]);
                keys[a] > keys[b] || (keys[a] == keys[b] && a < b)
            },
        forall|i: int| 0 <= i < items.len() ==> ranked(items, keys).contains(#[trigger] items[i]),
{
    law_ranking(keys);
    let order = ranking(keys);
    assert forall|i: int| 0 <= i < items.len() implies ranked(items, keys).contains(
        #[trigger] items[i],
    ) by {
        assert(order.contains(i));
        let k = choose|k: int| 0 <= k < order.len() && order[k] == i;
        assert(ranked(items, keys)[k] == items[i]);
    }
    assert forall|i: int, j: int| 0 <= i < j < items.len() implies {
        let (a, b) = (#[trigger] order[i], #[trigger] order[j]);
        keys[a] > keys[b] || (keys[a] == keys[b] && a < b)
    } by {
        assert(in_order(keys, order[i], order[j]));
    }
}

/// The first items of a list are its beginning: all of it where it is not longer than the
/// limit, and otherwise as many as the limit tells.
pub proof fn law_first_items<A>(items: Seq<A>, limit: int)
    requires
        limit >= 0,
    ensures
        first_items(items, limit).len() == if items.len() < limit {
            items.len() as int
        } else {
            limit
        },
        forall|i: int|
            0 <= i < first_items(items, limit).len() ==> #[trigger] first_items(items, limit)[i]
                == items[i],
{
}

} // verus!
