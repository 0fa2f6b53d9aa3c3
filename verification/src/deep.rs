//! Deep search: activation spreads from what a query finds across associative
//! edges, and finds what a query alone does not (a personalized PageRank).
//!
//! Activation starts at the direct hits. In each round every fragment passes
//! its activation on to its neighbours, in proportion to the weights of the
//! edges, and a share of the activation returns to where it started.

use vstd::prelude::*;

use crate::edge::{Edge, EdgeKind};
#[allow(unused_imports)]
use crate::edge::EdgeView;
use crate::fixed::ONE;
use crate::fragment::{now_unix, Fragment, FragmentId, ScoredFragment};
#[allow(unused_imports)]
use crate::fragment::{FragmentView, ScoredView};
use crate::query::{take_best, LoreDb};
use crate::relevance::MIN_RELEVANCE_THRESHOLD;
#[allow(unused_imports)]
use crate::storage::StorageView;

verus! {

/// The share of activation that is passed on in a round.
pub const DAMPING: i64 = 850_000_000;

/// The number of rounds.
pub const ROUNDS: u32 = 20;

// ---- links ----

/// Two active fragments that an associative edge connects, by their places.
#[derive(Debug, Clone, Copy)]
pub struct Link {
    pub a: usize,
    pub b: usize,
    pub weight: i64,
}

/// The place of the active fragment with an identifier; -1 where there is none.
pub open spec fn active_place(fs: Seq<FragmentView>, id: FragmentId) -> int
    decreases fs.len(),
{
    if fs.len() == 0 {
        -1
    } else if fs.last().id == id && crate::storage::is_active(fs.last()) {
        fs.len() - 1
    } else {
        active_place(fs.drop_last(), id)
    }
}

/// An edge that connects two different active fragments by an association.
pub open spec fn connects(fs: Seq<FragmentView>, e: EdgeView) -> bool {
    &&& e.kind == EdgeKind::Associative
    &&& e.weight > 0
    &&& active_place(fs, e.source) >= 0
    &&& active_place(fs, e.target) >= 0
    &&& active_place(fs, e.source) != active_place(fs, e.target)
}

/// The links that edges make. A weight counts up to one.
pub open spec fn links_of(fs: Seq<FragmentView>, es: Seq<EdgeView>) -> Seq<Link>
    decreases es.len(),
{
    if es.len() == 0 {
        Seq::empty()
    } else {
        let rest = links_of(fs, es.drop_last());
        let e = es.last();
        if connects(fs, e) {
            rest.push(
                Link {
                    a: active_place(fs, e.source) as usize,
                    b: active_place(fs, e.target) as usize,
                    weight: if e.weight < ONE {
                        e.weight
                    } else {
                        ONE
                    },
                },
            )
        } else {
            rest
        }
    }
}

/// Links between different ones of some places, with weights up to one.
pub open spec fn links_fit(links: Seq<Link>, n: nat) -> bool {
    forall|l: int|
        0 <= l < links.len() ==> {
            let x = #[trigger] links[l];
            x.a < n && x.b < n && x.a != x.b && 0 < x.weight <= ONE
        }
}

proof fn lemma_active_place(fs: Seq<FragmentView>, id: FragmentId)
    ensures
        -1 <= active_place(fs, id) < fs.len(),
        active_place(fs, id) >= 0 ==> fs[active_place(fs, id)].id == id && crate::storage::is_active(
            fs[active_place(fs, id)],
        ),
    decreases fs.len(),
{
    if fs.len() > 0 {
        lemma_active_place(fs.drop_last(), id);
    }
}

proof fn lemma_links_fit(fs: Seq<FragmentView>, es: Seq<EdgeView>)
    requires
        fs.len() <= usize::MAX,
    ensures
        links_fit(links_of(fs, es), fs.len()),
        links_of(fs, es).len() <= es.len(),
    decreases es.len(),
{
    if es.len() > 0 {
        lemma_links_fit(fs, es.drop_last());
        lemma_active_place(fs, es.last().source);
        lemma_active_place(fs, es.last().target);
    }
}

/// The link touches a place.
pub open spec fn joins(l: Link, i: int) -> bool {
    l.a == i || l.b == i
}

/// The place at the far end of a link.
pub open spec fn far_end(l: Link, i: int) -> int {
    if l.a == i {
        l.b as int
    } else {
        l.a as int
    }
}

// ---- activation ----

/// The weight of all links at a place.
pub open spec fn strength(links: Seq<Link>, i: int) -> int
    decreases links.len(),
{
    if links.len() == 0 {
        0
    } else if joins(links.last(), i) {
        strength(links.drop_last(), i) + links.last().weight
    } else {
        strength(links.drop_last(), i)
    }
}

/// What a link passes on to a place: the share of the activation at its far end
/// that the link has of all links there.
pub open spec fn passed(l: Link, links: Seq<Link>, p: Seq<int>, i: int) -> int {
    if joins(l, i) {
        p[far_end(l, i)] * l.weight / strength(links, far_end(l, i))
    } else {
        0
    }
}

/// What some of the links pass on to a place.
pub open spec fn received(some: Seq<Link>, links: Seq<Link>, p: Seq<int>, i: int) -> int
    decreases some.len(),
{
    if some.len() == 0 {
        0
    } else {
        received(some.drop_last(), links, p, i) + passed(some.last(), links, p, i)
    }
}

/// The activation of a place in the next round. A place without links keeps what
/// it started with; no activation exceeds one.
pub open spec fn next_activation(links: Seq<Link>, start: Seq<int>, p: Seq<int>, i: int) -> int {
    let mixed = ((ONE - DAMPING) * start[i] + DAMPING * received(links, links, p, i)) / (ONE as int);
    if strength(links, i) == 0 {
        start[i]
    } else if mixed < ONE {
        mixed
    } else {
        ONE as int
    }
}

/// The activation after a number of rounds.
pub open spec fn activation(links: Seq<Link>, start: Seq<int>, rounds: nat) -> Seq<int>
    decreases rounds,
{
    if rounds == 0 {
        start
    } else {
        let p = activation(links, start, (rounds - 1) as nat);
        Seq::new(start.len(), |i: int| next_activation(links, start, p, i))
    }
}

/// All values lie between zero and one.
pub open spec fn in_unit(s: Seq<int>) -> bool {
    forall|i: int| 0 <= i < s.len() ==> 0 <= #[trigger] s[i] <= ONE
}

proof fn lemma_strength_grows(links: Seq<Link>, k: int, i: int)
    requires
        links_fit(links, usize::MAX as nat),
        0 <= k <= links.len(),
    ensures
        0 <= strength(links.take(k), i) <= k * ONE,
        forall|j: int| 0 <= j < k && joins(#[trigger] links[j], i) ==> strength(links.take(k), i) >= links[j].weight,
    decreases k,
{
    if k > 0 {
        lemma_strength_grows(links, k - 1, i);
        assert(links.take(k).drop_last() == links.take(k - 1));
        assert(links.take(k).last() == links[k - 1]);
        assert forall|j: int| 0 <= j < k && joins(#[trigger] links[j], i) implies strength(
            links.take(k),
            i,
        ) >= links[j].weight by {
            if j < k - 1 {
                assert(strength(links.take(k - 1), i) >= links[j].weight);
            }
        }
    }
}

/// A link passes on no more than there is at its far end.
proof fn lemma_passed(links: Seq<Link>, l: int, p: Seq<int>, i: int)
    requires
        links_fit(links, p.len()),
        p.len() <= usize::MAX,
        in_unit(p),
        0 <= l < links.len(),
    ensures
        0 <= passed(links[l], links, p, i) <= ONE,
        joins(links[l], i) ==> strength(links, far_end(links[l], i)) > 0,
        passed(links[l], links, p, i) > 0 ==> joins(links[l], i) && p[far_end(links[l], i)] > 0,
{
    let x = links[l];
    if joins(x, i) {
        let j = far_end(x, i);
        lemma_strength_grows(links, links.len() as int, j);
        assert(links.take(links.len() as int) == links);
        assert(joins(links[l], j));
        let s = strength(links, j);
        let a = p[j];
        let w = x.weight as int;
        assert(0 <= a * w / s <= a) by (nonlinear_arith)
            requires
                0 <= a,
                0 < w <= s,
        ;
        if a == 0 {
            assert(a * w / s == 0) by (nonlinear_arith)
                requires
                    a == 0,
                    s > 0,
            ;
        }
    }
}

proof fn lemma_received(links: Seq<Link>, k: int, p: Seq<int>, i: int)
    requires
        links_fit(links, p.len()),
        p.len() <= usize::MAX,
        in_unit(p),
        0 <= k <= links.len(),
    ensures
        0 <= received(links.take(k), links, p, i) <= k * ONE,
        received(links.take(k), links, p, i) > 0 ==> exists|l: int|
            0 <= l < k && #[trigger] passed(links[l], links, p, i) > 0,
    decreases k,
{
    if k > 0 {
        lemma_received(links, k - 1, p, i);
        lemma_passed(links, k - 1, p, i);
        assert(links.take(k).drop_last() == links.take(k - 1));
        assert(links.take(k).last() == links[k - 1]);
        if received(links.take(k), links, p, i) > 0 && passed(links[k - 1], links, p, i) == 0 {
            let l = choose|l: int| 0 <= l < k - 1 && #[trigger] passed(links[l], links, p, i) > 0;
            assert(passed(links[l], links, p, i) > 0);
        }
    }
}

proof fn lemma_activation(links: Seq<Link>, start: Seq<int>, rounds: nat)
    requires
        links_fit(links, start.len()),
        start.len() <= usize::MAX,
        in_unit(start),
    ensures
        activation(links, start, rounds).len() == start.len(),
        in_unit(activation(links, start, rounds)),
    decreases rounds,
{
    if rounds > 0 {
        let p = activation(links, start, (rounds - 1) as nat);
        lemma_activation(links, start, (rounds - 1) as nat);
        assert forall|i: int| 0 <= i < start.len() implies 0 <= #[trigger] activation(
            links,
            start,
            rounds,
        )[i] <= ONE by {
            lemma_received(links, links.len() as int, p, i);
            assert(links.take(links.len() as int) == links);
        }
    }
}

/// A place that activation can reach from where it started, over at most a
/// number of links.
pub open spec fn reachable(links: Seq<Link>, start: Seq<int>, steps: nat, i: int) -> bool
    decreases steps,
{
    start[i] > 0 || (steps > 0 && exists|l: int|
        0 <= l < links.len() && joins(#[trigger] links[l], i) && reachable(
            links,
            start,
            (steps - 1) as nat,
            far_end(links[l], i),
        ))
}

/// Activation does not jump: what is active can be reached from a direct hit
/// over links, no more of them than there were rounds.
pub proof fn law_activation_is_reached(links: Seq<Link>, start: Seq<int>, rounds: nat, i: int)
    requires
        links_fit(links, start.len()),
        start.len() <= usize::MAX,
        in_unit(start),
        0 <= i < start.len(),
        activation(links, start, rounds)[i] > 0,
    ensures
        reachable(links, start, rounds, i),
    decreases rounds,
{
    if rounds > 0 && start[i] <= 0 {
        let p = activation(links, start, (rounds - 1) as nat);
        lemma_activation(links, start, (rounds - 1) as nat);
        lemma_received(links, links.len() as int, p, i);
        assert(links.take(links.len() as int) == links);
        assert(received(links, links, p, i) > 0);
        let l = choose|l: int|
            0 <= l < links.len() && #[trigger] passed(links[l], links, p, i) > 0;
        lemma_passed(links, l, p, i);
        law_activation_is_reached(links, start, (rounds - 1) as nat, far_end(links[l], i));
        assert(joins(links[l], i));
    }
}

/// Without links, all activation stays where it started.
pub proof fn law_no_links_no_spread(start: Seq<int>, rounds: nat)
    ensures
        activation(Seq::empty(), start, rounds) == start,
    decreases rounds,
{
    if rounds > 0 {
        law_no_links_no_spread(start, (rounds - 1) as nat);
        assert(activation(Seq::empty(), start, rounds) =~= start);
    }
}

/// The values of a list.
pub open spec fn values(v: Seq<i128>) -> Seq<int> {
    Seq::new(v.len(), |i: int| v[i] as int)
}

/// The place of the active fragment with an identifier.
fn find_active(fragments: &Vec<Fragment>, id: FragmentId) -> (r: Option<usize>)
    ensures
        match r {
            Some(i) => active_place(crate::fragment::fragment_views(fragments@), id) == i && i
                < fragments.len(),
            None => active_place(crate::fragment::fragment_views(fragments@), id) == -1,
        },
{
    let ghost fs = crate::fragment::fragment_views(fragments@);
    let mut n: usize = fragments.len();
    assert(fs.take(n as int) == fs);
    while n > 0
        invariant
            n <= fragments.len(),
            fs == crate::fragment::fragment_views(fragments@),
            active_place(fs, id) == active_place(fs.take(n as int), id),
        decreases n,
    {
        let f = &fragments[n - 1];
        proof {
            assert(fs.take(n as int).drop_last() == fs.take(n - 1));
            assert(fs.take(n as int).last() == f@);
        }
        if f.id == id && f.superseded_by.is_none() {
            return Some(n - 1);
        }
        n = n - 1;
    }
    None
}

/// Finds the links that edges make.
pub fn find_links(fragments: &Vec<Fragment>, edges: &Vec<Edge>) -> (r: Vec<Link>)
    ensures
        r@ == links_of(
            crate::fragment::fragment_views(fragments@),
            crate::edge::edge_views(edges@),
        ),
{
    let ghost fs = crate::fragment::fragment_views(fragments@);
    let ghost es = crate::edge::edge_views(edges@);
    let mut out: Vec<Link> = Vec::new();
    let mut i: usize = 0;
    while i < edges.len()
        invariant
            i <= edges.len(),
            fs == crate::fragment::fragment_views(fragments@),
            es == crate::edge::edge_views(edges@),
            out@ == links_of(fs, es.take(i as int)),
        decreases edges.len() - i,
    {
        let e = &edges[i];
        proof {
            assert(es.take(i + 1).drop_last() == es.take(i as int));
            assert(es.take(i + 1).last() == e@);
        }
        if e.kind == EdgeKind::Associative && e.weight > 0 {
            if let Some(a) = find_active(fragments, e.source) {
                if let Some(b) = find_active(fragments, e.target) {
                    if a != b {
                        let weight: i64 = if e.weight < ONE {
                            e.weight
                        } else {
                            ONE
                        };
                        out.push(Link { a, b, weight });
                    }
                }
            }
        }
        i = i + 1;
    }
    assert(es.take(i as int) == es);
    out
}

/// Adds up the weights of the links at each of some places.
fn find_strengths(links: &Vec<Link>, n: usize) -> (r: Vec<i128>)
    requires
        links_fit(links@, n as nat),
    ensures
        r.len() == n,
        forall|i: int| 0 <= i < n ==> #[trigger] r@[i] == strength(links@, i),
{
    let mut out: Vec<i128> = Vec::new();
    let mut i: usize = 0;
    while i < n
        invariant
            i <= n,
            out.len() == i,
            forall|j: int| 0 <= j < i ==> #[trigger] out@[j] == 0,
        decreases n - i,
    {
        out.push(0);
        i = i + 1;
    }
    let mut k: usize = 0;
    while k < links.len()
        invariant
            k <= links.len(),
            links_fit(links@, n as nat),
            out.len() == n,
            forall|j: int| 0 <= j < n ==> #[trigger] out@[j] == strength(links@.take(k as int), j),
        decreases links.len() - k,
    {
        let l: Link = links[k];
        let ghost before = out@;
        proof {
            assert(links@.take(k + 1).drop_last() == links@.take(k as int));
            assert(links@.take(k + 1).last() == l);
            lemma_strength_grows(links@, k as int, l.a as int);
            lemma_strength_grows(links@, k as int, l.b as int);
            assert(before[l.a as int] == strength(links@.take(k as int), l.a as int));
            assert(before[l.b as int] == strength(links@.take(k as int), l.b as int));
        }
        let at_a: i128 = out[l.a] + l.weight as i128;
        out[l.a] = at_a;
        let at_b: i128 = out[l.b] + l.weight as i128;
        out[l.b] = at_b;
        k = k + 1;
    }
    assert(links@.take(k as int) == links@);
    out
}

/// Adds up what links pass on to each place.
fn find_received(links: &Vec<Link>, strengths: &Vec<i128>, p: &Vec<i128>) -> (r: Vec<i128>)
    requires
        links_fit(links@, p.len() as nat),
        in_unit(values(p@)),
        strengths.len() == p.len(),
        forall|i: int| 0 <= i < p.len() ==> #[trigger] strengths@[i] == strength(links@, i),
    ensures
        r.len() == p.len(),
        forall|i: int|
            0 <= i < p.len() ==> #[trigger] r@[i] == received(links@, links@, values(p@), i),
{
    let ghost v = values(p@);
    let n: usize = p.len();
    let mut out: Vec<i128> = Vec::new();
    let mut i: usize = 0;
    while i < n
        invariant
            i <= n,
            out.len() == i,
            forall|j: int| 0 <= j < i ==> #[trigger] out@[j] == 0,
        decreases n - i,
    {
        out.push(0);
        i = i + 1;
    }
    let mut k: usize = 0;
    while k < links.len()
        invariant
            k <= links.len(),
            n == p.len(),
            v == values(p@),
            in_unit(v),
            links_fit(links@, n as nat),
            strengths.len() == n,
            forall|j: int| 0 <= j < n ==> #[trigger] strengths@[j] == strength(links@, j),
            out.len() == n,
            forall|j: int|
                0 <= j < n ==> #[trigger] out@[j] == received(links@.take(k as int), links@, v, j),
        decreases links.len() - k,
    {
        let l: Link = links[k];
        let ghost before = out@;
        proof {
            assert(links@.take(k + 1).drop_last() == links@.take(k as int));
            assert(links@.take(k + 1).last() == l);
            lemma_received(links@, k as int, v, l.a as int);
            lemma_received(links@, k as int, v, l.b as int);
            lemma_passed(links@, k as int, v, l.a as int);
            lemma_passed(links@, k as int, v, l.b as int);
            assert(before[l.a as int] == received(links@.take(k as int), links@, v, l.a as int));
            assert(before[l.b as int] == received(links@.take(k as int), links@, v, l.b as int));
            assert(strengths@[l.a as int] == strength(links@, l.a as int));
            assert(strengths@[l.b as int] == strength(links@, l.b as int));
            assert(v[l.a as int] == p@[l.a as int]);
            assert(v[l.b as int] == p@[l.b as int]);
        }
        let w: i128 = l.weight as i128;
        let pa: i128 = p[l.a];
        let pb: i128 = p[l.b];
        proof {
            assert(0 <= pa * w <= ONE * ONE) by (nonlinear_arith)
                requires
                    0 <= pa <= ONE,
                    0 < w <= ONE,
            ;
            assert(0 <= pb * w <= ONE * ONE) by (nonlinear_arith)
                requires
                    0 <= pb <= ONE,
                    0 < w <= ONE,
            ;
        }
        let to_a: i128 = pb * w / strengths[l.b];
        let to_b: i128 = pa * w / strengths[l.a];
        let at_a: i128 = out[l.a] + to_a;
        out[l.a] = at_a;
        let at_b: i128 = out[l.b] + to_b;
        out[l.b] = at_b;
        k = k + 1;
    }
    assert(links@.take(k as int) == links@);
    out
}

/// Lets activation spread for a number of rounds.
pub fn spread_over_links(links: &Vec<Link>, start: &Vec<i128>, rounds: u32) -> (r: Vec<i128>)
    requires
        links_fit(links@, start.len() as nat),
        in_unit(values(start@)),
    ensures
        values(r@) == activation(links@, values(start@), rounds as nat),
        in_unit(values(r@)),
{
    let ghost s = values(start@);
    let n: usize = start.len();
    let strengths = find_strengths(links, n);
    let mut p: Vec<i128> = start.clone();
    assert(values(p@) == s);
    let mut round: u32 = 0;
    while round < rounds
        invariant
            round <= rounds,
            n == start.len(),
            s == values(start@),
            in_unit(s),
            links_fit(links@, n as nat),
            strengths.len() == n,
            forall|j: int| 0 <= j < n ==> #[trigger] strengths@[j] == strength(links@, j),
            values(p@) == activation(links@, s, round as nat),
        decreases rounds - round,
    {
        let ghost before = activation(links@, s, round as nat);
        let ghost after = activation(links@, s, (round + 1) as nat);
        proof {
            lemma_activation(links@, s, round as nat);
            assert(values(p@).len() == p.len());
        }
        let got = find_received(links, &strengths, &p);
        let mut next: Vec<i128> = Vec::new();
        let mut i: usize = 0;
        while i < n
            invariant
                i <= n,
                n == start.len(),
                s == values(start@),
                in_unit(s),
                before.len() == n,
                in_unit(before),
                links_fit(links@, n as nat),
                strengths.len() == n,
                got.len() == n,
                forall|j: int| 0 <= j < n ==> #[trigger] strengths@[j] == strength(links@, j),
                forall|j: int|
                    0 <= j < n ==> #[trigger] got@[j] == received(links@, links@, before, j),
                next.len() == i,
                forall|j: int|
                    0 <= j < i ==> #[trigger] next@[j] == next_activation(links@, s, before, j),
            decreases n - i,
        {
            proof {
                lemma_received(links@, links@.len() as int, before, i as int);
                assert(links@.take(links@.len() as int) == links@);
                assert(s[i as int] == start@[i as int]);
                assert(got@[i as int] == received(links@, links@, before, i as int));
                assert(strengths@[i as int] == strength(links@, i as int));
                assert(links@.len() == links.len());
                assert(0 <= got@[i as int] <= 0xffff_ffff_ffff_ffff * ONE);
            }
            let value: i128 = if strengths[i] == 0 {
                start[i]
            } else {
                let mixed: i128 = (((ONE - DAMPING) as i128) * start[i] + (DAMPING as i128)
                    * got[i]) / (ONE as i128);
                if mixed < ONE as i128 {
                    mixed
                } else {
                    ONE as i128
                }
            };
            next.push(value);
            i = i + 1;
        }
        assert(values(next@) == after);
        p = next;
        round = round + 1;
    }
    proof {
        lemma_activation(links@, s, rounds as nat);
    }
    p
}

// ---- one hit of each tree ----

/// The fragment that some steps up the tree lead to.
pub open spec fn climb(g: StorageView, id: FragmentId, steps: nat) -> FragmentId
    decreases steps,
{
    if steps == 0 {
        id
    } else {
        match crate::storage::parent_of(g, id) {
            Some(p) => climb(g, p.id, (steps - 1) as nat),
            None => id,
        }
    }
}

/// The fragment at the top of the tree of a fragment.
pub open spec fn top_of(g: StorageView, id: FragmentId) -> FragmentId {
    climb(g, id, g.fragments.len())
}

/// The list has a fragment of the same tree.
pub open spec fn has_same_tree(g: StorageView, v: Seq<ScoredView>, id: FragmentId) -> bool {
    exists|k: int| 0 <= k < v.len() && top_of(g, (#[trigger] v[k]).fragment.id) == top_of(g, id)
}

/// The first fragment of each tree in a list.
pub open spec fn one_per_tree(g: StorageView, v: Seq<ScoredView>) -> Seq<ScoredView>
    decreases v.len(),
{
    if v.len() == 0 {
        Seq::empty()
    } else {
        let rest = one_per_tree(g, v.drop_last());
        if has_same_tree(g, rest, v.last().fragment.id) {
            rest
        } else {
            rest.push(v.last())
        }
    }
}

/// What is left of a list is from the list, no two of it are of one tree, and
/// each tree in the list is still there.
pub proof fn law_one_per_tree(g: StorageView, v: Seq<ScoredView>)
    ensures
        one_per_tree(g, v).len() <= v.len(),
        forall|k: int| 0 <= k < one_per_tree(g, v).len() ==> v.contains(
            #[trigger] one_per_tree(g, v)[k],
        ),
        forall|i: int, j: int|
            0 <= i < j < one_per_tree(g, v).len() ==> top_of(
                g,
                (#[trigger] one_per_tree(g, v)[i]).fragment.id,
            ) != top_of(g, (#[trigger] one_per_tree(g, v)[j]).fragment.id),
        forall|k: int|
            0 <= k < v.len() ==> has_same_tree(
                g,
                one_per_tree(g, v),
                (#[trigger] v[k]).fragment.id,
            ),
    decreases v.len(),
{
    if v.len() > 0 {
        let front = v.drop_last();
        let rest = one_per_tree(g, front);
        let all = one_per_tree(g, v);
        law_one_per_tree(g, front);
        assert forall|k: int| 0 <= k < all.len() implies v.contains(#[trigger] all[k]) by {
            if k < rest.len() {
                assert(front.contains(rest[k]));
                let j = choose|j: int| 0 <= j < front.len() && front[j] == rest[k];
                assert(v[j] == rest[k]);
            } else {
                assert(v[v.len() - 1] == all[k]);
            }
        }
        assert forall|k: int| 0 <= k < v.len() implies has_same_tree(
            g,
            all,
            (#[trigger] v[k]).fragment.id,
        ) by {
            if k < front.len() {
                assert(front[k] == v[k]);
                let j = choose|j: int|
                    0 <= j < rest.len() && top_of(g, (#[trigger] rest[j]).fragment.id) == top_of(
                        g,
                        v[k].fragment.id,
                    );
                assert(all[j] == rest[j]);
            } else if !has_same_tree(g, rest, v.last().fragment.id) {
                assert(all[rest.len() as int] == v[k]);
            }
        }
        assert forall|i: int, j: int| 0 <= i < j < all.len() implies top_of(
            g,
            (#[trigger] all[i]).fragment.id,
        ) != top_of(g, (#[trigger] all[j]).fragment.id) by {
            if j < rest.len() {
                assert(rest[i] == all[i] && rest[j] == all[j]);
            } else {
                assert(rest[i] == all[i]);
            }
        }
    }
}

// ---- hits ----

/// What a query finds at any depth.
pub open spec fn hits_everywhere(
    g: StorageView,
    topic: Seq<char>,
    embedding: Option<Seq<i32>>,
) -> Seq<ScoredView> {
    match embedding {
        Some(e) => crate::query::embedding_hits(g, e, None),
        None => crate::query::text_hits(g, topic, None),
    }
}

/// The hits that a deep search starts from.
pub open spec fn seeds(
    g: StorageView,
    topic: Seq<char>,
    embedding: Option<Seq<i32>>,
    limit: int,
) -> Seq<ScoredView> {
    crate::query::best(hits_everywhere(g, topic, embedding), limit)
}

/// What a search for trees finds: the best hit of each.
pub open spec fn tree_hits(
    g: StorageView,
    topic: Seq<char>,
    embedding: Option<Seq<i32>>,
    limit: int,
) -> Seq<ScoredView> {
    one_per_tree(g, seeds(g, topic, embedding, limit))
}

/// A score as an activation.
pub open spec fn as_activation(score: i64) -> int {
    if score < 0 {
        0
    } else if score < ONE {
        score as int
    } else {
        ONE as int
    }
}

/// The activation that a fragment has from being a hit.
pub open spec fn seed_activation(hits: Seq<ScoredView>, id: FragmentId) -> int
    decreases hits.len(),
{
    if hits.len() == 0 {
        0
    } else if hits.last().fragment.id == id {
        as_activation(hits.last().score)
    } else {
        seed_activation(hits.drop_last(), id)
    }
}

/// The activation that fragments start with.
pub open spec fn start_of(fs: Seq<FragmentView>, hits: Seq<ScoredView>) -> Seq<int> {
    Seq::new(fs.len(), |i: int| seed_activation(hits, fs[i].id))
}

/// The larger of two activations.
pub open spec fn larger(a: int, b: int) -> int {
    if a < b {
        b
    } else {
        a
    }
}

/// The active and visible ones of the first fragments that have any activation.
/// A direct hit counts for no less than its score.
pub open spec fn aroused(fs: Seq<FragmentView>, start: Seq<int>, p: Seq<int>, n: nat) -> Seq<
    ScoredView,
>
    decreases n,
{
    if n == 0 {
        Seq::empty()
    } else {
        let rest = aroused(fs, start, p, (n - 1) as nat);
        let f = fs[n - 1];
        let a = larger(start[n - 1], p[n - 1]);
        if crate::storage::is_active(f) && f.relevance_score > MIN_RELEVANCE_THRESHOLD && a > 0 {
            rest.push(ScoredView { fragment: f, score: a as i64 })
        } else {
            rest
        }
    }
}

/// All that a deep search arouses.
pub open spec fn aroused_by(g: StorageView, hits: Seq<ScoredView>) -> Seq<ScoredView> {
    let start = start_of(g.fragments, hits);
    let p = activation(links_of(g.fragments, g.edges), start, ROUNDS as nat);
    aroused(g.fragments, start, p, g.fragments.len())
}

/// What a deep search finds: the best of each tree.
pub open spec fn deep_hits(
    g: StorageView,
    topic: Seq<char>,
    embedding: Option<Seq<i32>>,
    limit: int,
) -> Seq<ScoredView> {
    let all = aroused_by(g, seeds(g, topic, embedding, limit));
    crate::lists::first_items(
        one_per_tree(g, crate::query::best(all, all.len() as int)),
        limit,
    )
}

proof fn lemma_start(fs: Seq<FragmentView>, hits: Seq<ScoredView>)
    ensures
        in_unit(start_of(fs, hits)),
{
    assert forall|i: int| 0 <= i < fs.len() implies 0 <= #[trigger] start_of(fs, hits)[i] <= ONE by {
        lemma_seed(hits, fs[i].id);
    }
}

proof fn lemma_seed(hits: Seq<ScoredView>, id: FragmentId)
    ensures
        0 <= seed_activation(hits, id) <= ONE,
    decreases hits.len(),
{
    if hits.len() > 0 {
        lemma_seed(hits.drop_last(), id);
    }
}

/// The fragment stands in the list, is active and visible, and has activation.
pub open spec fn is_aroused(
    fs: Seq<FragmentView>,
    start: Seq<int>,
    p: Seq<int>,
    s: ScoredView,
) -> bool {
    exists|i: int|
        0 <= i < fs.len() && #[trigger] fs[i] == s.fragment && crate::storage::is_active(fs[i])
            && fs[i].relevance_score > MIN_RELEVANCE_THRESHOLD && larger(start[i], p[i]) > 0
}

proof fn lemma_aroused(fs: Seq<FragmentView>, start: Seq<int>, p: Seq<int>, n: nat)
    requires
        n <= fs.len(),
    ensures
        aroused(fs, start, p, n).len() <= n,
        forall|k: int|
            0 <= k < aroused(fs, start, p, n).len() ==> is_aroused(
                fs,
                start,
                p,
                #[trigger] aroused(fs, start, p, n)[k],
            ),
    decreases n,
{
    if n > 0 {
        lemma_aroused(fs, start, p, (n - 1) as nat);
        let rest = aroused(fs, start, p, (n - 1) as nat);
        let all = aroused(fs, start, p, n);
        assert forall|k: int| 0 <= k < all.len() implies is_aroused(
            fs,
            start,
            p,
            #[trigger] all[k],
        ) by {
            if k < rest.len() {
                assert(all[k] == rest[k]);
            } else {
                assert(fs[n - 1] == all[k].fragment);
            }
        }
    }
}

/// The fragment can be reached from a direct hit over associative edges between
/// active fragments.
pub open spec fn is_reached(g: StorageView, hits: Seq<ScoredView>, s: ScoredView) -> bool {
    exists|i: int|
        0 <= i < g.fragments.len() && #[trigger] g.fragments[i] == s.fragment && reachable(
            links_of(g.fragments, g.edges),
            start_of(g.fragments, hits),
            ROUNDS as nat,
            i,
        )
}

/// The fragment exists, is active and visible, and can be reached from a hit.
pub open spec fn is_deep_hit(g: StorageView, hits: Seq<ScoredView>, s: ScoredView) -> bool {
    &&& g.fragments.contains(s.fragment)
    &&& crate::storage::is_active(s.fragment)
    &&& s.fragment.relevance_score > MIN_RELEVANCE_THRESHOLD
    &&& is_reached(g, hits, s)
}

proof fn lemma_deep_hit(g: StorageView, hits: Seq<ScoredView>, m: int)
    requires
        g.fragments.len() <= usize::MAX,
        0 <= m < aroused_by(g, hits).len(),
    ensures
        is_deep_hit(g, hits, aroused_by(g, hits)[m]),
{
    let links = links_of(g.fragments, g.edges);
    let start = start_of(g.fragments, hits);
    let p = activation(links, start, ROUNDS as nat);
    let s = aroused_by(g, hits)[m];
    lemma_links_fit(g.fragments, g.edges);
    lemma_start(g.fragments, hits);
    lemma_activation(links, start, ROUNDS as nat);
    lemma_aroused(g.fragments, start, p, g.fragments.len());
    assert(is_aroused(g.fragments, start, p, s));
    let i = choose|i: int|
        0 <= i < g.fragments.len() && #[trigger] g.fragments[i] == s.fragment
            && crate::storage::is_active(g.fragments[i]) && g.fragments[i].relevance_score
            > MIN_RELEVANCE_THRESHOLD && larger(start[i], p[i]) > 0;
    if start[i] <= 0 {
        law_activation_is_reached(links, start, ROUNDS as nat, i);
    }
    assert(reachable(links, start, ROUNDS as nat, i));
    assert(g.fragments[i] == s.fragment);
}

/// What a deep search finds exists, is active and visible, and can be reached
/// from a direct hit over associative edges; no two are of one tree, and there
/// are no more than asked for.
pub proof fn law_deep_hits(
    g: StorageView,
    topic: Seq<char>,
    embedding: Option<Seq<i32>>,
    limit: int,
)
    requires
        g.fragments.len() <= usize::MAX,
        limit >= 0,
    ensures
        deep_hits(g, topic, embedding, limit).len() <= limit,
        forall|k: int|
            0 <= k < deep_hits(g, topic, embedding, limit).len() ==> is_deep_hit(
                g,
                seeds(g, topic, embedding, limit),
                #[trigger] deep_hits(g, topic, embedding, limit)[k],
            ),
        forall|i: int, j: int|
            0 <= i < j < deep_hits(g, topic, embedding, limit).len() ==> top_of(
                g,
                (#[trigger] deep_hits(g, topic, embedding, limit)[i]).fragment.id,
            ) != top_of(g, (#[trigger] deep_hits(g, topic, embedding, limit)[j]).fragment.id),
{
    let hits = seeds(g, topic, embedding, limit);
    let all = aroused_by(g, hits);
    let ordered = crate::query::best(all, all.len() as int);
    let kept = one_per_tree(g, ordered);
    let found = deep_hits(g, topic, embedding, limit);
    assert(found == crate::lists::first_items(kept, limit));
    law_one_per_tree(g, ordered);
    assert forall|k: int| 0 <= k < found.len() implies is_deep_hit(g, hits, #[trigger] found[k]) by {
        let s = found[k];
        assert(kept[k] == s);
        assert(ordered.contains(kept[k]));
        let j = choose|j: int| 0 <= j < ordered.len() && ordered[j] == s;
        crate::query::lemma_best_member(all, all.len() as int, j);
        let m = choose|m: int| 0 <= m < all.len() && all[m] == s;
        lemma_deep_hit(g, hits, m);
    }
    assert forall|i: int, j: int| 0 <= i < j < found.len() implies top_of(
        g,
        (#[trigger] found[i]).fragment.id,
    ) != top_of(g, (#[trigger] found[j]).fragment.id) by {
        assert(kept[i] == found[i] && kept[j] == found[j]);
    }
}

impl LoreDb {
    /// The fragment at the top of the tree of a fragment.
    pub fn find_top(&self, id: FragmentId) -> (r: FragmentId)
        requires
            self.wf(),
        ensures
            r == top_of(self@, id),
    {
        let mut at: FragmentId = id;
        let n: usize = self.storage().fragments().len();
        let mut left: usize = n;
        assert(self@.fragments.len() == n);
        while left > 0
            invariant
                self.wf(),
                top_of(self@, id) == climb(self@, at, left as nat),
            decreases left,
        {
            match self.parent(at) {
                Some(p) => {
                    at = p.id;
                },
                None => {
                    return at;
                },
            }
            left = left - 1;
        }
        at
    }

    /// The first fragment of each tree in a list.
    fn keep_one_per_tree(&self, v: &Vec<ScoredFragment>) -> (r: Vec<ScoredFragment>)
        requires
            self.wf(),
        ensures
            crate::fragment::scored_views(r@) == one_per_tree(
                self@,
                crate::fragment::scored_views(v@),
            ),
    {
        let ghost all = crate::fragment::scored_views(v@);
        let mut out: Vec<ScoredFragment> = Vec::new();
        let mut tops: Vec<FragmentId> = Vec::new();
        let mut i: usize = 0;
        assert(crate::fragment::scored_views(out@) == one_per_tree(self@, all.take(0)));
        while i < v.len()
            invariant
                self.wf(),
                i <= v.len(),
                all == crate::fragment::scored_views(v@),
                crate::fragment::scored_views(out@) == one_per_tree(self@, all.take(i as int)),
                tops.len() == out.len(),
                forall|k: int|
                    0 <= k < out.len() ==> #[trigger] tops@[k] == top_of(
                        self@,
                        crate::fragment::scored_views(out@)[k].fragment.id,
                    ),
            decreases v.len() - i,
        {
            let ghost rest = crate::fragment::scored_views(out@);
            let top: FragmentId = self.find_top(v[i].fragment.id);
            proof {
                assert(all.take(i + 1).drop_last() == all.take(i as int));
                assert(all.take(i + 1).last() == v@[i as int]@);
            }
            let mut seen: bool = false;
            let mut k: usize = 0;
            while k < tops.len()
                invariant
                    k <= tops.len(),
                    seen == exists|j: int| 0 <= j < k && #[trigger] tops@[j] == top,
                decreases tops.len() - k,
            {
                if tops[k] == top {
                    seen = true;
                }
                k = k + 1;
            }
            proof {
                assert(rest.len() == tops.len());
                if seen {
                    let j = choose|j: int| 0 <= j < tops.len() && #[trigger] tops@[j] == top;
                    assert(top_of(self@, rest[j].fragment.id) == top);
                    assert(has_same_tree(self@, rest, v@[i as int]@.fragment.id));
                } else if has_same_tree(self@, rest, v@[i as int]@.fragment.id) {
                    let j = choose|j: int|
                        0 <= j < rest.len() && top_of(self@, (#[trigger] rest[j]).fragment.id)
                            == top_of(self@, v@[i as int]@.fragment.id);
                    assert(tops@[j] == top);
                    assert(false);
                }
            }
            if !seen {
                let s = ScoredFragment { fragment: v[i].fragment.clone(), score: v[i].score };
                assert(crate::fragment::scored_views(out@.push(s)) == rest.push(s@));
                out.push(s);
                tops.push(top);
            }
            i = i + 1;
        }
        assert(all.take(i as int) == all);
        out
    }

    /// The hits that a deep search starts from.
    fn find_seeds(&self, topic: &str, embedding: Option<&Vec<i32>>, limit: usize) -> (r: Vec<
        ScoredFragment,
    >)
        requires
            self.wf(),
        ensures
            crate::fragment::scored_views(r@) == seeds(
                self@,
                topic@,
                crate::storage::numbers_view(embedding),
                limit as int,
            ),
    {
        let scored = match embedding {
            Some(e) => self.score_by_embedding(e, None),
            None => self.score_by_text(topic, None),
        };
        take_best(&scored, limit)
    }

    /// Searches at all depths, as of a given time, and gives the best hit of
    /// each tree. What is found is returned as it was, and reinforced.
    pub fn search_trees_at(
        &mut self,
        topic: &str,
        embedding: Option<&Vec<i32>>,
        limit: usize,
        now: i64,
    ) -> (r: Vec<ScoredFragment>)
        requires
            old(self).wf(),
        ensures
            final(self).wf(),
            crate::fragment::scored_views(r@) == tree_hits(
                old(self)@,
                topic@,
                crate::storage::numbers_view(embedding),
                limit as int,
            ),
            final(self)@ == crate::query::all_recalled(
                old(self)@,
                crate::fragment::scored_views(r@),
                now,
            ),
    {
        let hits = self.find_seeds(topic, embedding, limit);
        let found = self.keep_one_per_tree(&hits);
        self.recall_all(&found, now);
        found
    }

    /// Searches as [`LoreDb::search_trees_at`] does, as of now.
    pub fn search_trees(&mut self, topic: &str, embedding: Option<&Vec<i32>>, limit: usize) -> (r:
        Vec<ScoredFragment>)
        requires
            old(self).wf(),
        ensures
            final(self).wf(),
            crate::fragment::scored_views(r@) == tree_hits(
                old(self)@,
                topic@,
                crate::storage::numbers_view(embedding),
                limit as int,
            ),
            exists|now: i64|
                now >= 0 && final(self)@ == #[trigger] crate::query::all_recalled(
                    old(self)@,
                    crate::fragment::scored_views(r@),
                    now,
                ),
    {
        let now: i64 = now_unix();
        self.search_trees_at(topic, embedding, limit, now)
    }

    /// Finds all that activation from some hits reaches.
    pub fn arouse(&self, hits: &Vec<ScoredFragment>) -> (r: Vec<ScoredFragment>)
        requires
            self.wf(),
        ensures
            crate::fragment::scored_views(r@) == aroused_by(
                self@,
                crate::fragment::scored_views(hits@),
            ),
    {
        let fragments = self.storage().fragments();
        let edges = self.storage().edges();
        let ghost fs = self@.fragments;
        let ghost hs = crate::fragment::scored_views(hits@);
        let ghost s = start_of(fs, hs);
        let n: usize = fragments.len();
        let mut start: Vec<i128> = Vec::new();
        let mut i: usize = 0;
        while i < n
            invariant
                i <= n,
                n == fragments.len(),
                fs == crate::fragment::fragment_views(fragments@),
                hs == crate::fragment::scored_views(hits@),
                s == start_of(fs, hs),
                start.len() == i,
                forall|j: int| 0 <= j < i ==> #[trigger] start@[j] == s[j],
            decreases n - i,
        {
            assert(fs[i as int] == fragments@[i as int]@);
            start.push(find_seed_activation(hits, fragments[i].id));
            i = i + 1;
        }
        proof {
            assert(values(start@) == s);
            lemma_start(fs, hs);
            lemma_links_fit(fs, self@.edges);
        }
        let links = find_links(fragments, edges);
        let p = spread_over_links(&links, &start, ROUNDS);
        let ghost v = values(p@);
        proof {
            lemma_activation(links@, s, ROUNDS as nat);
        }
        let mut out: Vec<ScoredFragment> = Vec::new();
        let mut k: usize = 0;
        assert(crate::fragment::scored_views(out@) == aroused(fs, s, v, 0));
        while k < n
            invariant
                k <= n,
                n == fragments.len(),
                fs == crate::fragment::fragment_views(fragments@),
                start.len() == n,
                p.len() == n,
                s == values(start@),
                v == values(p@),
                in_unit(s),
                in_unit(v),
                crate::fragment::scored_views(out@) == aroused(fs, s, v, k as nat),
            decreases n - k,
        {
            let f = &fragments[k];
            assert(fs[k as int] == f@);
            assert(s[k as int] == start@[k as int]);
            assert(v[k as int] == p@[k as int]);
            let a: i128 = if start[k] < p[k] {
                p[k]
            } else {
                start[k]
            };
            if f.superseded_by.is_none() && f.relevance_score > MIN_RELEVANCE_THRESHOLD && a > 0 {
                let x = ScoredFragment { fragment: f.clone(), score: a as i64 };
                assert(crate::fragment::scored_views(out@.push(x)) == crate::fragment::scored_views(
                    out@,
                ).push(x@));
                out.push(x);
            }
            k = k + 1;
        }
        out
    }

    /// Searches deeply, as of a given time: activation spreads from the direct
    /// hits at all depths across associative edges, and the best of each tree
    /// that it reaches is given. What is found is returned as it was, and
    /// reinforced.
    pub fn search_deep_at(
        &mut self,
        topic: &str,
        embedding: Option<&Vec<i32>>,
        limit: usize,
        now: i64,
    ) -> (r: Vec<ScoredFragment>)
        requires
            old(self).wf(),
        ensures
            final(self).wf(),
            crate::fragment::scored_views(r@) == deep_hits(
                old(self)@,
                topic@,
                crate::storage::numbers_view(embedding),
                limit as int,
            ),
            final(self)@ == crate::query::all_recalled(
                old(self)@,
                crate::fragment::scored_views(r@),
                now,
            ),
    {
        let hits = self.find_seeds(topic, embedding, limit);
        let all = self.arouse(&hits);
        assert(crate::fragment::scored_views(all@).len() == all.len());
        let ordered = take_best(&all, all.len());
        let mut found = self.keep_one_per_tree(&ordered);
        let ghost kept = crate::fragment::scored_views(found@);
        if found.len() > limit {
            found.truncate(limit);
        }
        assert(crate::fragment::scored_views(found@) == crate::lists::first_items(
            kept,
            limit as int,
        ));
        self.recall_all(&found, now);
        found
    }

    /// Searches deeply, as [`LoreDb::search_deep_at`] does, as of now.
    pub fn search_deep(&mut self, topic: &str, embedding: Option<&Vec<i32>>, limit: usize) -> (r:
        Vec<ScoredFragment>)
        requires
            old(self).wf(),
        ensures
            final(self).wf(),
            crate::fragment::scored_views(r@) == deep_hits(
                old(self)@,
                topic@,
                crate::storage::numbers_view(embedding),
                limit as int,
            ),
            exists|now: i64|
                now >= 0 && final(self)@ == #[trigger] crate::query::all_recalled(
                    old(self)@,
                    crate::fragment::scored_views(r@),
                    now,
                ),
    {
        let now: i64 = now_unix();
        self.search_deep_at(topic, embedding, limit, now)
    }
}

/// The activation that a fragment has from being a hit.
fn find_seed_activation(hits: &Vec<ScoredFragment>, id: FragmentId) -> (r: i128)
    ensures
        r == seed_activation(crate::fragment::scored_views(hits@), id),
{
    let ghost hs = crate::fragment::scored_views(hits@);
    let mut n: usize = hits.len();
    assert(hs.take(n as int) == hs);
    while n > 0
        invariant
            n <= hits.len(),
            hs == crate::fragment::scored_views(hits@),
            seed_activation(hs, id) == seed_activation(hs.take(n as int), id),
        decreases n,
    {
        let h = &hits[n - 1];
        proof {
            assert(hs.take(n as int).drop_last() == hs.take(n - 1));
            assert(hs.take(n as int).last() == h@);
        }
        if h.fragment.id == id {
            return if h.score < 0 {
                0
            } else if h.score < ONE {
                h.score as i128
            } else {
                ONE as i128
            };
        }
        n = n - 1;
    }
    0
}

// ---- how activation spreads ----

proof fn lemma_place_of(fs: Seq<FragmentView>, i: int)
    requires
        crate::storage::unique_fragments(fs),
        0 <= i < fs.len(),
    ensures
        fs[i].superseded_by is None ==> active_place(fs, fs[i].id) == i,
        fs[i].superseded_by is Some ==> active_place(fs, fs[i].id) == -1,
{
    lemma_active_place(fs, fs[i].id);
    let k = active_place(fs, fs[i].id);
    if 0 <= k < i {
        assert(fs[k].id != fs[i].id);
    }
    if k > i {
        assert(fs[i].id != fs[k].id);
    }
    if k == -1 && fs[i].superseded_by is None {
        lemma_place_is_found(fs, i);
    }
}

proof fn lemma_place_is_found(fs: Seq<FragmentView>, i: int)
    requires
        0 <= i < fs.len(),
        fs[i].superseded_by is None,
    ensures
        active_place(fs, fs[i].id) >= 0,
    decreases fs.len(),
{
    if i < fs.len() - 1 {
        assert(fs.drop_last()[i] == fs[i]);
        lemma_place_is_found(fs.drop_last(), i);
        lemma_active_place(fs.drop_last(), fs[i].id);
    }
}

/// One edge more is at most one link more: an associative edge with a weight above zero
/// between two different active fragments links their places, with its weight up to one;
/// no other edge does.
pub proof fn law_an_edge_makes_a_link(
    fs: Seq<FragmentView>,
    es: Seq<EdgeView>,
    e: EdgeView,
    i: int,
    j: int,
)
    requires
        crate::storage::unique_fragments(fs),
        fs.len() <= usize::MAX,
        0 <= i < fs.len(),
        0 <= j < fs.len(),
        fs[i].id == e.source,
        fs[j].id == e.target,
    ensures
        links_of(fs, Seq::empty()).len() == 0,
        ({
            let linked = e.kind == EdgeKind::Associative && e.weight > 0 && i != j
                && fs[i].superseded_by is None && fs[j].superseded_by is None;
            &&& linked ==> links_of(fs, es.push(e)) == links_of(fs, es).push(
                Link {
                    a: i as usize,
                    b: j as usize,
                    weight: if e.weight <= 1_000_000_000 {
                        e.weight
                    } else {
                        1_000_000_000
                    },
                },
            )
            &&& !linked ==> links_of(fs, es.push(e)) == links_of(fs, es)
        }),
{
    lemma_place_of(fs, i);
    lemma_place_of(fs, j);
    assert(es.push(e).drop_last() == es);
}

/// The strength of a place is the weight of all its links: a link counts at both its ends
/// and nowhere else.
pub proof fn law_strength(links: Seq<Link>, l: Link, i: int)
    ensures
        strength(Seq::empty(), i) == 0,
        l.a == i || l.b == i ==> strength(links.push(l), i) == strength(links, i) + l.weight,
        l.a != i && l.b != i ==> strength(links.push(l), i) == strength(links, i),
{
    assert(links.push(l).drop_last() == links);
}

/// What a place receives: from each of its links the part of the activation at the other
/// end that the weight of the link is of the strength there, and from other links nothing.
pub proof fn law_received(some: Seq<Link>, links: Seq<Link>, p: Seq<int>, l: Link, i: int)
    ensures
        received(Seq::empty(), links, p, i) == 0,
        l.a == i && l.b != i ==> received(some.push(l), links, p, i) == received(some, links, p, i)
            + p[l.b as int] * l.weight / strength(links, l.b as int),
        l.b == i && l.a != i ==> received(some.push(l), links, p, i) == received(some, links, p, i)
            + p[l.a as int] * l.weight / strength(links, l.a as int),
        l.a != i && l.b != i ==> received(some.push(l), links, p, i) == received(some, links, p, i),
{
    assert(some.push(l).drop_last() == some);
}

/// A round of spreading: where there are links, 0.15 of what a place started with and
/// 0.85 of what it receives, up to one; elsewhere what it started with.
pub proof fn law_a_round(links: Seq<Link>, start: Seq<int>, rounds: nat, i: int)
    requires
        0 <= i < start.len(),
    ensures
        activation(links, start, 0) == start,
        ({
            let p = activation(links, start, rounds);
            let after = activation(links, start, rounds + 1)[i];
            let sum = 150_000_000 * start[i] + 850_000_000 * received(links, links, p, i);
            &&& strength(links, i) == 0 ==> after == start[i]
            &&& strength(links, i) != 0 && sum >= 1_000_000_000_000_000_000 ==> after
                == 1_000_000_000
            &&& strength(links, i) != 0 && sum < 1_000_000_000_000_000_000 ==> after
                * 1_000_000_000 <= sum < (after + 1) * 1_000_000_000
        }),
{
}

/// Over a single link, all that one end has is passed on to the other.
pub proof fn law_a_link_passes_on(l: Link, start: Seq<int>, rounds: nat)
    requires
        links_fit(seq![l], start.len()),
        start.len() <= usize::MAX,
        in_unit(start),
    ensures
        ({
            let p = activation(seq![l], start, rounds)[l.a as int];
            let after = activation(seq![l], start, rounds + 1)[l.b as int];
            let sum = 150_000_000 * start[l.b as int] + 850_000_000 * p;
            &&& after * 1_000_000_000 <= sum
            &&& sum < (after + 1) * 1_000_000_000
        }),
{
    let links = seq![l];
    let p = activation(links, start, rounds);
    let (a, b) = (l.a as int, l.b as int);
    assert(links[0] == l);
    lemma_activation(links, start, rounds);
    law_strength(Seq::empty(), l, a);
    law_strength(Seq::empty(), l, b);
    law_received(Seq::empty(), links, p, l, b);
    assert(Seq::<Link>::empty().push(l) == links);
    law_a_round(links, start, rounds, b);
    let w = l.weight as int;
    let x = p[a];
    assert(x * w / w == x) by (nonlinear_arith)
        requires
            w > 0,
    ;
    assert(0 <= start[b] <= ONE && 0 <= x <= ONE);
}

/// What activation starts with: the score of a hit, between zero and one, for the
/// fragment that was hit, and nothing for one that was not.
pub proof fn law_hits_start_activation(fs: Seq<FragmentView>, hits: Seq<ScoredView>, k: int)
    requires
        0 <= k < fs.len(),
    ensures
        (forall|h: int| 0 <= h < hits.len() ==> (#[trigger] hits[h]).fragment.id != fs[k].id)
            ==> start_of(fs, hits)[k] == 0,
        forall|h: int|
            0 <= h < hits.len() && (#[trigger] hits[h]).fragment.id == fs[k].id && (forall|o: int|
                0 <= o < hits.len() && o != h ==> (#[trigger] hits[o]).fragment.id != fs[k].id)
                ==> start_of(fs, hits)[k] == if hits[h].score < 0 {
                0
            } else if hits[h].score > 1_000_000_000 {
                1_000_000_000
            } else {
                hits[h].score as int
            },
    decreases hits.len(),
{
    if hits.len() > 0 {
        let front = hits.drop_last();
        law_hits_start_activation(fs, front, k);
        if hits.last().fragment.id != fs[k].id {
            if forall|h: int|
                0 <= h < hits.len() ==> (#[trigger] hits[h]).fragment.id != fs[k].id {
                assert forall|h: int| 0 <= h < front.len() implies (
                #[trigger] front[h]).fragment.id != fs[k].id by {
                    assert(hits[h] == front[h]);
                }
            }
            assert forall|h: int|
                0 <= h < hits.len() && (#[trigger] hits[h]).fragment.id == fs[k].id && (forall|
                    o: int,
                |
                    0 <= o < hits.len() && o != h ==> (#[trigger] hits[o]).fragment.id
                        != fs[k].id) implies start_of(fs, hits)[k] == as_activation(
                hits[h].score,
            ) by {
                assert(hits[hits.len() - 1] == hits.last());
                assert(front[h] == hits[h]);
                assert forall|o: int| 0 <= o < front.len() && o != h implies (
                #[trigger] front[o]).fragment.id != fs[k].id by {
                    assert(hits[o] == front[o]);
                }
                assert(start_of(fs, front)[k] == as_activation(front[h].score));
            }
        } else {
            assert(hits[hits.len() - 1] == hits.last());
        }
    }
}

proof fn lemma_aroused_all(fs: Seq<FragmentView>, start: Seq<int>, p: Seq<int>, n: nat, i: int)
    requires
        0 <= i < n <= fs.len(),
        fs[i].superseded_by is None,
        fs[i].relevance_score > MIN_RELEVANCE_THRESHOLD,
        larger(start[i], p[i]) > 0,
    ensures
        aroused(fs, start, p, n).contains(
            ScoredView { fragment: fs[i], score: larger(start[i], p[i]) as i64 },
        ),
    decreases n,
{
    let s = ScoredView { fragment: fs[i], score: larger(start[i], p[i]) as i64 };
    let rest = aroused(fs, start, p, (n - 1) as nat);
    let all = aroused(fs, start, p, n);
    if i < n - 1 {
        lemma_aroused_all(fs, start, p, (n - 1) as nat, i);
        let k = choose|k: int| 0 <= k < rest.len() && rest[k] == s;
        assert(all[k] == s);
    } else {
        assert(all[rest.len() as int] == s);
    }
}

proof fn lemma_aroused_from(fs: Seq<FragmentView>, start: Seq<int>, p: Seq<int>, n: nat, k: int)
    requires
        n <= fs.len(),
        0 <= k < aroused(fs, start, p, n).len(),
    ensures
        exists|i: int|
            0 <= i < n && aroused(fs, start, p, n)[k].fragment == #[trigger] fs[i]
                && fs[i].superseded_by is None && fs[i].relevance_score > MIN_RELEVANCE_THRESHOLD
                && larger(start[i], p[i]) > 0 && aroused(fs, start, p, n)[k].score == larger(
                start[i],
                p[i],
            ) as i64,
    decreases n,
{
    let rest = aroused(fs, start, p, (n - 1) as nat);
    let all = aroused(fs, start, p, n);
    if k < rest.len() {
        lemma_aroused_from(fs, start, p, (n - 1) as nat, k);
        assert(all[k] == rest[k]);
        let i = choose|i: int|
            0 <= i < n - 1 && rest[k].fragment == #[trigger] fs[i] && fs[i].superseded_by is None
                && fs[i].relevance_score > MIN_RELEVANCE_THRESHOLD && larger(start[i], p[i]) > 0
                && rest[k].score == larger(start[i], p[i]) as i64;
        assert(all[k].fragment == fs[i]);
    } else {
        assert(all[k].fragment == fs[n - 1]);
    }
}

/// What a deep search arouses: the active fragments that have not faded to 0.05 or below
/// and have some activation after twenty rounds or are hits themselves, each with the
/// larger of the two for a score; and nothing else.
pub proof fn law_what_is_aroused(g: StorageView, hits: Seq<ScoredView>, i: int)
    requires
        0 <= i < g.fragments.len(),
        g.fragments.len() <= usize::MAX,
        crate::storage::unique_fragments(g.fragments),
    ensures
        ({
            let f = g.fragments[i];
            let start = start_of(g.fragments, hits);
            let p = activation(links_of(g.fragments, g.edges), start, 20);
            let a = if start[i] > p[i] {
                start[i]
            } else {
                p[i]
            };
            &&& f.superseded_by is None && f.relevance_score > 50_000_000 && a > 0 ==> aroused_by(
                g,
                hits,
            ).contains(ScoredView { fragment: f, score: a as i64 })
            &&& forall|k: int|
                0 <= k < aroused_by(g, hits).len() && (#[trigger] aroused_by(g, hits)[k]).fragment
                    == f ==> f.superseded_by is None && f.relevance_score > 50_000_000
                    && aroused_by(g, hits)[k].score == a && a > 0
        }),
{
    let fs = g.fragments;
    let links = links_of(fs, g.edges);
    let start = start_of(fs, hits);
    let p = activation(links, start, 20);
    lemma_links_fit(fs, g.edges);
    lemma_start(fs, hits);
    lemma_activation(links, start, 20);
    let f = fs[i];
    if f.superseded_by is None && f.relevance_score > 50_000_000 && larger(start[i], p[i]) > 0 {
        lemma_aroused_all(fs, start, p, fs.len(), i);
    }
    assert forall|k: int|
        0 <= k < aroused_by(g, hits).len() && (#[trigger] aroused_by(g, hits)[k]).fragment
            == f implies f.superseded_by is None && f.relevance_score > 50_000_000 && aroused_by(
        g,
        hits,
    )[k].score == larger(start[i], p[i]) && larger(start[i], p[i]) > 0 by {
        lemma_aroused_from(fs, start, p, fs.len(), k);
        let m = choose|m: int|
            0 <= m < fs.len() && aroused_by(g, hits)[k].fragment == #[trigger] fs[m]
                && fs[m].superseded_by is None && fs[m].relevance_score > MIN_RELEVANCE_THRESHOLD
                && larger(start[m], p[m]) > 0 && aroused_by(g, hits)[k].score == larger(
                start[m],
                p[m],
            ) as i64;
        if m < i {
            assert(fs[m].id != fs[i].id);
        }
        if m > i {
            assert(fs[i].id != fs[m].id);
        }
        assert(0 <= start[m] <= ONE && 0 <= p[m] <= ONE);
    }
}

// ---- trees ----

/// Going up: no step leads nowhere, and each step more leads to the parent, as long as
/// there is one. The top of a tree is where there is none.
pub proof fn law_climbing(g: StorageView, id: FragmentId, n: nat, p: FragmentView)
    ensures
        climb(g, id, 0) == id,
        crate::storage::parent_of(g, id) == Some(p) ==> climb(g, id, n + 1) == climb(g, p.id, n),
        crate::storage::parent_of(g, id) is None ==> climb(g, id, n) == id,
        n <= g.fragments.len() && crate::storage::parent_of(g, climb(g, id, n)) is None
            ==> top_of(g, id) == climb(g, id, n),
{
    if n <= g.fragments.len() && crate::storage::parent_of(g, climb(g, id, n)) is None {
        lemma_climbed(g, id, n, g.fragments.len());
    }
}

proof fn lemma_climbed(g: StorageView, id: FragmentId, n: nat, more: nat)
    requires
        n <= more,
        crate::storage::parent_of(g, climb(g, id, n)) is None,
    ensures
        climb(g, id, more) == climb(g, id, n),
    decreases n,
{
    if n > 0 {
        if let Some(p) = crate::storage::parent_of(g, id) {
            lemma_climbed(g, p.id, (n - 1) as nat, (more - 1) as nat);
        }
    }
}

/// The first fragment of each tree stays: one behind a list is kept unless one of its
/// tree stands in the list.
pub proof fn law_the_first_of_a_tree_stays(g: StorageView, v: Seq<ScoredView>, s: ScoredView)
    ensures
        one_per_tree(g, Seq::empty()).len() == 0,
        (exists|k: int|
            0 <= k < v.len() && top_of(g, (#[trigger] v[k]).fragment.id) == top_of(
                g,
                s.fragment.id,
            )) ==> one_per_tree(g, v.push(s)) == one_per_tree(g, v),
        (forall|k: int|
            0 <= k < v.len() ==> top_of(g, (#[trigger] v[k]).fragment.id) != top_of(
                g,
                s.fragment.id,
            )) ==> one_per_tree(g, v.push(s)) == one_per_tree(g, v).push(s),
{
    assert(v.push(s).drop_last() == v);
    law_one_per_tree(g, v);
    let rest = one_per_tree(g, v);
    if exists|k: int|
        0 <= k < v.len() && top_of(g, (#[trigger] v[k]).fragment.id) == top_of(g, s.fragment.id) {
        let k = choose|k: int|
            0 <= k < v.len() && top_of(g, (#[trigger] v[k]).fragment.id) == top_of(
                g,
                s.fragment.id,
            );
        assert(has_same_tree(g, rest, v[k].fragment.id));
        let j = choose|j: int|
            0 <= j < rest.len() && top_of(g, (#[trigger] rest[j]).fragment.id) == top_of(
                g,
                v[k].fragment.id,
            );
        assert(top_of(g, rest[j].fragment.id) == top_of(g, s.fragment.id));
    } else if has_same_tree(g, rest, s.fragment.id) {
        let j = choose|j: int|
            0 <= j < rest.len() && top_of(g, (#[trigger] rest[j]).fragment.id) == top_of(
                g,
                s.fragment.id,
            );
        assert(v.contains(rest[j]));
        let k = choose|k: int| 0 <= k < v.len() && v[k] == rest[j];
        assert(top_of(g, v[k].fragment.id) == top_of(g, s.fragment.id));
    }
}

/// Of each tree the best hit is given: for every direct hit there is one of the same tree
/// in the result that scores no less.
pub proof fn law_the_best_of_each_tree(
    g: StorageView,
    topic: Seq<char>,
    embedding: Option<Seq<i32>>,
    limit: int,
    k: int,
)
    requires
        limit >= 0,
        0 <= k < seeds(g, topic, embedding, limit).len(),
    ensures
        exists|j: int|
            0 <= j < tree_hits(g, topic, embedding, limit).len() && top_of(
                g,
                (#[trigger] tree_hits(g, topic, embedding, limit)[j]).fragment.id,
            ) == top_of(g, seeds(g, topic, embedding, limit)[k].fragment.id) && tree_hits(
                g,
                topic,
                embedding,
                limit,
            )[j].score >= seeds(g, topic, embedding, limit)[k].score,
{
    let v = seeds(g, topic, embedding, limit);
    crate::query::law_best(hits_everywhere(g, topic, embedding), limit);
    lemma_best_of_tree(g, v, k);
    let found = tree_hits(g, topic, embedding, limit);
    assert(found == one_per_tree(g, v));
    let j = choose|j: int|
        0 <= j < one_per_tree(g, v).len() && top_of(
            g,
            (#[trigger] one_per_tree(g, v)[j]).fragment.id,
        ) == top_of(g, v[k].fragment.id) && one_per_tree(g, v)[j].score >= v[k].score;
    assert(top_of(g, found[j].fragment.id) == top_of(g, v[k].fragment.id));
}

proof fn lemma_best_of_tree(g: StorageView, v: Seq<ScoredView>, k: int)
    requires
        0 <= k < v.len(),
        forall|i: int, j: int|
            0 <= i < j < v.len() ==> (#[trigger] v[i]).score >= (#[trigger] v[j]).score,
    ensures
        exists|j: int|
            0 <= j < one_per_tree(g, v).len() && top_of(
                g,
                (#[trigger] one_per_tree(g, v)[j]).fragment.id,
            ) == top_of(g, v[k].fragment.id) && one_per_tree(g, v)[j].score >= v[k].score,
    decreases v.len(),
{
    let front = v.drop_last();
    let rest = one_per_tree(g, front);
    let all = one_per_tree(g, v);
    if k < front.len() {
        assert forall|i: int, j: int| 0 <= i < j < front.len() implies (#[trigger] front[i]).score
            >= (#[trigger] front[j]).score by {
            assert(v[i].score >= v[j].score);
        }
        lemma_best_of_tree(g, front, k);
        let j = choose|j: int|
            0 <= j < rest.len() && top_of(g, (#[trigger] rest[j]).fragment.id) == top_of(
                g,
                front[k].fragment.id,
            ) && rest[j].score >= front[k].score;
        assert(all[j] == rest[j]);
    } else if has_same_tree(g, rest, v.last().fragment.id) {
        let j = choose|j: int|
            0 <= j < rest.len() && top_of(g, (#[trigger] rest[j]).fragment.id) == top_of(
                g,
                v.last().fragment.id,
            );
        law_one_per_tree(g, front);
        assert(front.contains(rest[j]));
        let m = choose|m: int| 0 <= m < front.len() && front[m] == rest[j];
        assert(v[m].score >= v[k].score);
        assert(all[j] == rest[j]);
    } else {
        assert(all[rest.len() as int] == v[k]);
    }
}

/// A deep search gives the best of what it arouses: for everything that is aroused there
/// is one of the same tree in the result that scores no less, or the result is as long as
/// was asked for and nothing in it scores less.
pub proof fn law_deep_search_misses_nothing(
    g: StorageView,
    topic: Seq<char>,
    embedding: Option<Seq<i32>>,
    limit: int,
    k: int,
)
    requires
        limit >= 0,
        0 <= k < aroused_by(g, seeds(g, topic, embedding, limit)).len(),
    ensures
        ({
            let s = aroused_by(g, seeds(g, topic, embedding, limit))[k];
            let found = deep_hits(g, topic, embedding, limit);
            ||| exists|j: int|
                0 <= j < found.len() && top_of(g, (#[trigger] found[j]).fragment.id) == top_of(
                    g,
                    s.fragment.id,
                ) && found[j].score >= s.score
            ||| found.len() == limit && forall|j: int|
                0 <= j < found.len() ==> (#[trigger] found[j]).score >= s.score
        }),
{
    let all = aroused_by(g, seeds(g, topic, embedding, limit));
    let s = all[k];
    let ordered = crate::query::best(all, all.len() as int);
    let kept = one_per_tree(g, ordered);
    let found = deep_hits(g, topic, embedding, limit);
    crate::query::law_best(all, all.len() as int);
    assert(ordered.contains(s)) by {
        if !ordered.contains(all[k]) {
            crate::lists::law_ranked(all, crate::query::score_keys(all));
        }
    }
    let o = choose|o: int| 0 <= o < ordered.len() && ordered[o] == s;
    lemma_best_of_tree(g, ordered, o);
    let j = choose|j: int|
        0 <= j < kept.len() && top_of(g, (#[trigger] kept[j]).fragment.id) == top_of(
            g,
            ordered[o].fragment.id,
        ) && kept[j].score >= ordered[o].score;
    lemma_kept_in_order(g, ordered);
    if j < found.len() {
        assert(found[j] == kept[j]);
    } else {
        assert forall|i: int| 0 <= i < found.len() implies (#[trigger] found[i]).score
            >= s.score by {
            assert(found[i] == kept[i]);
            assert(kept[i].score >= kept[j].score);
        }
    }
}

proof fn lemma_kept_in_order(g: StorageView, v: Seq<ScoredView>)
    requires
        forall|i: int, j: int|
            0 <= i < j < v.len() ==> (#[trigger] v[i]).score >= (#[trigger] v[j]).score,
    ensures
        forall|i: int, j: int|
            0 <= i < j < one_per_tree(g, v).len() ==> (#[trigger] one_per_tree(g, v)[i]).score >= (
            #[trigger] one_per_tree(g, v)[j]).score,
    decreases v.len(),
{
    if v.len() > 0 {
        let front = v.drop_last();
        assert forall|i: int, j: int| 0 <= i < j < front.len() implies (#[trigger] front[i]).score
            >= (#[trigger] front[j]).score by {
            assert(v[i].score >= v[j].score);
        }
        lemma_kept_in_order(g, front);
        law_one_per_tree(g, front);
        let rest = one_per_tree(g, front);
        let all = one_per_tree(g, v);
        assert forall|i: int, j: int| 0 <= i < j < all.len() implies (#[trigger] all[i]).score >= (
        #[trigger] all[j]).score by {
            if j < rest.len() {
                assert(rest[i].score >= rest[j].score);
            } else {
                assert(front.contains(rest[i]));
                let m = choose|m: int| 0 <= m < front.len() && front[m] == rest[i];
                assert(v[m].score >= v[v.len() - 1].score);
            }
        }
    }
}

/// What a search at all depths starts from: by embedding the active fragments that have
/// one, by text those that the topic matches, none of them faded to 0.05 or below; each
/// with the score of a query, and nothing is left out unless there are as many as were
/// asked for and none of them scores less.
pub proof fn law_seeds(
    g: StorageView,
    topic: Seq<char>,
    embedding: Option<Seq<i32>>,
    limit: int,
    f: FragmentView,
)
    requires
        limit >= 0,
    ensures
        ({
            let hits = seeds(g, topic, embedding, limit);
            let matched = crate::query::text_match(
                crate::text::lowercase(topic),
                crate::text::lowercase(f.content),
                crate::text::lowercase(f.summary),
            );
            let in_reach = f.superseded_by is None && f.relevance_score > 50_000_000
                && match embedding {
                Some(_) => f.embedding.len() > 0,
                None => matched is Some,
            };
            let score = crate::relevance::blended(
                match embedding {
                    Some(e) => crate::embedding::similarity(e, f.embedding),
                    None => matched->0 as int,
                },
                f.relevance_score as int,
            );
            &&& hits.len() <= limit
            &&& forall|i: int|
                0 <= i < hits.len() && (#[trigger] hits[i]).fragment == f ==> hits[i].score == score
                    && g.fragments.contains(f) && in_reach
            &&& g.fragments.contains(f) && in_reach ==> hits.contains(
                ScoredView { fragment: f, score },
            ) || (hits.len() == limit && forall|j: int|
                0 <= j < hits.len() ==> (#[trigger] hits[j]).score >= score)
        }),
{
    let keep = match embedding {
        Some(_) => crate::query::found_by_embedding(None),
        None => crate::query::found_by_text(topic, None),
    };
    let to = match embedding {
        Some(e) => crate::query::scored_by_embedding(e),
        None => crate::query::scored_by_text(topic),
    };
    let kept = g.fragments.filter(keep);
    let all = hits_everywhere(g, topic, embedding);
    let hits = seeds(g, topic, embedding, limit);
    assert(all == kept.map_values(to));
    crate::lists::lemma_filter_members(g.fragments, keep);
    crate::query::law_best(all, limit);
    assert forall|i: int| 0 <= i < hits.len() && (#[trigger] hits[i]).fragment == f implies hits[i]
        == to(f) && keep(f) && g.fragments.contains(f) by {
        assert(all.contains(hits[i]));
        let k = choose|k: int| 0 <= k < all.len() && all[k] == hits[i];
        assert(all[k] == to(kept[k]));
        assert(keep(kept[k]) && g.fragments.contains(kept[k]));
    }
    if g.fragments.contains(f) && keep(f) {
        let i = choose|i: int| 0 <= i < g.fragments.len() && g.fragments[i] == f;
        assert(keep(g.fragments[i]));
        let k = choose|k: int| 0 <= k < kept.len() && kept[k] == f;
        assert(all[k] == to(f));
    }
}

/// What a search for trees gives comes from its direct hits, best first.
pub proof fn law_tree_hits(
    g: StorageView,
    topic: Seq<char>,
    embedding: Option<Seq<i32>>,
    limit: int,
    i: int,
    j: int,
)
    requires
        limit >= 0,
        0 <= i < tree_hits(g, topic, embedding, limit).len(),
        0 <= j < tree_hits(g, topic, embedding, limit).len(),
    ensures
        seeds(g, topic, embedding, limit).contains(tree_hits(g, topic, embedding, limit)[i]),
        i < j ==> tree_hits(g, topic, embedding, limit)[i].score >= tree_hits(
            g,
            topic,
            embedding,
            limit,
        )[j].score,
        i < j ==> top_of(g, tree_hits(g, topic, embedding, limit)[i].fragment.id) != top_of(
            g,
            tree_hits(g, topic, embedding, limit)[j].fragment.id,
        ),
{
    let v = seeds(g, topic, embedding, limit);
    crate::query::law_best(hits_everywhere(g, topic, embedding), limit);
    law_one_per_tree(g, v);
    lemma_kept_in_order(g, v);
    let found = one_per_tree(g, v);
    assert(found == tree_hits(g, topic, embedding, limit));
    assert(v.contains(found[i]));
    if i < j {
        assert(found[i].score >= found[j].score);
    }
}

} // verus!
