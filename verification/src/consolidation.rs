//! Consolidation: the sleep cycle of the memory.
//!
//! Relevance fades, similar roots are merged, related concepts are linked,
//! contradictions are resolved, and what is forgotten is removed.

use vstd::prelude::*;

use crate::changes::Stamp;
#[allow(unused_imports)]
use crate::changes::Outcome;
use crate::config::ConsolidationConfig;
use crate::edge::EdgeKind;
#[allow(unused_imports)]
use crate::edge::EdgeView;
use crate::embedding::cosine_similarity;
use crate::fixed::ONE;
use crate::fragment::{Fragment, FragmentId};
#[allow(unused_imports)]
use crate::fragment::FragmentView;
use crate::query::LoreDb;
use crate::storage::StorageError;
#[allow(unused_imports)]
use crate::storage::StorageView;
use crate::text::{is_blank, join, take_chars, trim};

verus! {

/// Children more similar than this are linked across similar roots.
pub const CROSS_THRESHOLD: i64 = 700_000_000;

/// Topics more similar than this are almost the same.
pub const TOPIC_MERGE_THRESHOLD: i64 = 900_000_000;

/// The factor by which associative edges lose weight.
pub const EDGE_DECAY: i64 = 950_000_000;

/// Associative edges below this weight are removed.
pub const MIN_EDGE_WEIGHT: i64 = 150_000_000;

/// Siblings less similar than this cannot contradict each other.
pub const CONTRADICTION_SIMILARITY: i64 = 500_000_000;

/// The most pairs that are checked for contradictions at once.
pub const CONTRADICTION_BATCH_SIZE: usize = 10;

/// The most sessions that are digested in one run.
pub const MAX_SESSIONS_PER_CONSOLIDATION: usize = 10;

/// Seconds in a day.
pub const DAY: i64 = 86_400;

/// What a consolidation run did.
#[derive(Debug, Clone, Copy, PartialEq, Eq, Structural)]
pub struct ConsolidationStats {
    pub sessions_digested: usize,
    pub fragments_extracted: usize,
    pub relevance_updated: usize,
    pub roots_merged: usize,
    pub links_created: usize,
    pub roots_resummarized: usize,
    pub reflections_generated: usize,
    pub contradictions_resolved: usize,
    pub edges_pruned: usize,
    pub fragments_pruned: usize,
}

/// Nothing done yet.
pub open spec fn no_counts() -> ConsolidationStats {
    ConsolidationStats {
        sessions_digested: 0,
        fragments_extracted: 0,
        relevance_updated: 0,
        roots_merged: 0,
        links_created: 0,
        roots_resummarized: 0,
        reflections_generated: 0,
        contradictions_resolved: 0,
        edges_pruned: 0,
        fragments_pruned: 0,
    }
}

impl Default for ConsolidationStats {
    fn default() -> (r: Self)
        ensures
            r == no_counts(),
    {
        ConsolidationStats {
            sessions_digested: 0,
            fragments_extracted: 0,
            relevance_updated: 0,
            roots_merged: 0,
            links_created: 0,
            roots_resummarized: 0,
            reflections_generated: 0,
            contradictions_resolved: 0,
            edges_pruned: 0,
            fragments_pruned: 0,
        }
    }
}

/// Two fragments and a number: how similar they are, or how strongly they are
/// to be linked.
#[derive(Debug, Clone, Copy, PartialEq, Eq, Structural)]
pub struct Pair {
    pub a: FragmentId,
    pub b: FragmentId,
    pub similarity: i64,
}

// ---- similar pairs ----

/// Two fragments that can be compared and are more similar than a threshold.
pub open spec fn are_similar(a: FragmentView, b: FragmentView, threshold: i64) -> bool {
    a.embedding.len() > 0 && b.embedding.len() > 0 && crate::embedding::similarity(
        a.embedding,
        b.embedding,
    ) > threshold
}

/// The pair of two fragments with their similarity.
pub open spec fn pair_of(a: FragmentView, b: FragmentView) -> Pair {
    Pair {
        a: a.id,
        b: b.id,
        similarity: crate::embedding::similarity(a.embedding, b.embedding) as i64,
    }
}

/// The similar pairs of one fragment and the first `n` of a list.
pub open spec fn similar_to(f: FragmentView, others: Seq<FragmentView>, n: int, threshold: i64) -> Seq<
    Pair,
>
    decreases n,
{
    if n <= 0 {
        Seq::empty()
    } else {
        let rest = similar_to(f, others, n - 1, threshold);
        if are_similar(f, others[n - 1], threshold) {
            rest.push(pair_of(f, others[n - 1]))
        } else {
            rest
        }
    }
}

/// The similar pairs of the first `n` fragments of a list with those that come
/// after them in it.
pub open spec fn similar_within(fs: Seq<FragmentView>, n: int, threshold: i64) -> Seq<Pair>
    decreases n,
{
    if n <= 0 {
        Seq::empty()
    } else {
        let rest = fs.skip(n);
        similar_within(fs, n - 1, threshold) + similar_to(
            fs[n - 1],
            rest,
            rest.len() as int,
            threshold,
        )
    }
}

/// The similar pairs of each of the first `n` fragments of a list with all of
/// another list.
pub open spec fn similar_across(
    fs: Seq<FragmentView>,
    others: Seq<FragmentView>,
    n: int,
    threshold: i64,
) -> Seq<Pair>
    decreases n,
{
    if n <= 0 {
        Seq::empty()
    } else {
        similar_across(fs, others, n - 1, threshold) + similar_to(
            fs[n - 1],
            others,
            others.len() as int,
            threshold,
        )
    }
}

/// The pairs of active roots that are more similar than a threshold.
pub open spec fn similar_roots(g: StorageView, threshold: i64) -> Seq<Pair> {
    let roots = crate::query::roots_of(g);
    similar_within(roots, roots.len() as int, threshold)
}

/// Adds the similar pairs of one fragment and a part of a list.
fn push_similar(
    out: &mut Vec<Pair>,
    f: &Fragment,
    others: &Vec<Fragment>,
    from: usize,
    threshold: i64,
)
    requires
        from <= others.len(),
    ensures
        final(out)@ == old(out)@ + similar_to(
            f@,
            crate::fragment::fragment_views(others@).skip(from as int),
            others.len() - from,
            threshold,
        ),
{
    let ghost before = out@;
    let ghost rest = crate::fragment::fragment_views(others@).skip(from as int);
    let mut j: usize = from;
    assert(before + similar_to(f@, rest, 0, threshold) == before);
    while j < others.len()
        invariant
            from <= j <= others.len(),
            rest == crate::fragment::fragment_views(others@).skip(from as int),
            out@ == before + similar_to(f@, rest, j - from, threshold),
        decreases others.len() - j,
    {
        let other = &others[j];
        proof {
            assert(rest[j - from] == other@);
            let seen = similar_to(f@, rest, j - from, threshold);
            assert((before + seen).push(pair_of(f@, other@)) == before + seen.push(
                pair_of(f@, other@),
            ));
        }
        if f.embedding.len() > 0 && other.embedding.len() > 0 {
            let s: i64 = cosine_similarity(&f.embedding, &other.embedding);
            if s > threshold {
                out.push(Pair { a: f.id, b: other.id, similarity: s });
            }
        }
        j = j + 1;
    }
}

/// Finds the pairs of active roots that are more similar than a threshold.
pub fn phase1_similarity_detection(db: &LoreDb, threshold: i64) -> (r: Vec<Pair>)
    requires
        db.wf(),
    ensures
        r@ == similar_roots(db@, threshold),
{
    let roots = db.list_roots(None);
    let ghost fs = crate::fragment::fragment_views(roots@);
    let mut pairs: Vec<Pair> = Vec::new();
    let mut i: usize = 0;
    while i < roots.len()
        invariant
            i <= roots.len(),
            fs == crate::fragment::fragment_views(roots@),
            pairs@ == similar_within(fs, i as int, threshold),
        decreases roots.len() - i,
    {
        push_similar(&mut pairs, &roots[i], &roots, i + 1, threshold);
        assert(fs[i as int] == roots@[i as int]@);
        i = i + 1;
    }
    pairs
}

// ---- moving children ----

/// The outcome of moving a child from one parent to another.
pub open spec fn reparenting(
    g: StorageView,
    child: FragmentId,
    from: FragmentId,
    to: FragmentId,
    stamp: Stamp,
) -> Outcome<()> {
    crate::changes::linking(
        StorageView {
            edges: g.edges.filter(
                crate::storage::not_between(from, child, EdgeKind::Hierarchical),
            ),
            ..g
        },
        crate::changes::stamped_edge(to, child, EdgeKind::Hierarchical, ONE, None, stamp),
    )
}

/// The outcome of moving children from one parent to another, one by one, up to
/// the first refusal. Each edge has its stamp.
pub open spec fn reparenting_all(
    g: StorageView,
    children: Seq<FragmentView>,
    from: FragmentId,
    to: FragmentId,
    stamps: Seq<Stamp>,
) -> Outcome<()>
    decreases children.len(),
{
    if children.len() == 0 || stamps.len() == 0 {
        Outcome { graph: g, result: Ok(()) }
    } else {
        let o = reparenting_all(g, children.drop_last(), from, to, stamps.drop_last());
        match o.result {
            Ok(_) => reparenting(o.graph, children.last().id, from, to, stamps.last()),
            Err(_) => o,
        }
    }
}

/// `after` and `result` are an outcome of moving children from one parent to
/// another, for some stamps.
pub open spec fn children_moved(
    g: StorageView,
    children: Seq<FragmentView>,
    from: FragmentId,
    to: FragmentId,
    after: StorageView,
    result: Result<(), StorageError>,
) -> bool {
    exists|stamps: Seq<Stamp>|
        {
            let o = #[trigger] reparenting_all(
                g,
                children.take(stamps.len() as int),
                from,
                to,
                stamps,
            );
            &&& stamps.len() <= children.len()
            &&& result is Ok ==> stamps.len() == children.len()
            &&& forall|i: int|
                0 <= i < stamps.len() ==> crate::changes::is_drawn(#[trigger] stamps[i])
            &&& after == o.graph
            &&& result == o.result
        }
}

/// Moves children from one parent to another.
pub fn reparent_children(
    db: &mut LoreDb,
    children: &Vec<Fragment>,
    from: FragmentId,
    to: FragmentId,
) -> (r: Result<(), StorageError>)
    requires
        old(db).wf(),
    ensures
        final(db).wf(),
        children_moved(
            old(db)@,
            crate::fragment::fragment_views(children@),
            from,
            to,
            final(db)@,
            r,
        ),
{
    let ghost before = db@;
    let ghost fs = crate::fragment::fragment_views(children@);
    let ghost mut stamps: Seq<Stamp> = Seq::empty();
    let mut i: usize = 0;
    while i < children.len()
        invariant
            db.wf(),
            i <= children.len(),
            before == old(db)@,
            fs == crate::fragment::fragment_views(children@),
            stamps.len() == i,
            forall|k: int| 0 <= k < stamps.len() ==> crate::changes::is_drawn(#[trigger] stamps[k]),
            db@ == reparenting_all(before, fs.take(i as int), from, to, stamps).graph,
            reparenting_all(before, fs.take(i as int), from, to, stamps).result is Ok,
        decreases children.len() - i,
    {
        let id: FragmentId = children[i].id;
        let stamp = Stamp::new();
        proof {
            assert(fs.take(i + 1).drop_last() == fs.take(i as int));
            assert(fs.take(i + 1).last() == fs[i as int]);
            assert(fs[i as int] == children@[i as int]@);
            assert(stamps.push(stamp).drop_last() == stamps);
            stamps = stamps.push(stamp);
        }
        db.storage_mut().delete_edge_between(from, id, EdgeKind::Hierarchical);
        let linked = db.link_stamped(to, id, EdgeKind::Hierarchical, ONE, None, stamp);
        i = i + 1;
        if let Err(e) = linked {
            return Err(e);
        }
    }
    assert(fs.take(i as int) == fs);
    Ok(())
}

// ---- merging roots ----

/// Who survives and who gives way when two roots are merged: the one that was
/// accessed more often survives, the first of them where both were accessed
/// equally often. Nothing where one of them is gone or superseded.
pub open spec fn survivor_and_victim(g: StorageView, pair: Pair) -> Option<
    (FragmentId, FragmentId),
> {
    match (
        crate::storage::fragment_of(g.fragments, pair.a),
        crate::storage::fragment_of(g.fragments, pair.b),
    ) {
        (Some(a), Some(b)) => if a.superseded_by is None && b.superseded_by is None {
            if a.access_count >= b.access_count {
                Some((pair.a, pair.b))
            } else {
                Some((pair.b, pair.a))
            }
        } else {
            None
        },
        _ => None,
    }
}

/// `after` and `result` are an outcome of merging the victim into the survivor:
/// its children move over, and it is superseded.
pub open spec fn victim_merged(
    g: StorageView,
    survivor: FragmentId,
    victim: FragmentId,
    after: StorageView,
    result: Result<(), StorageError>,
) -> bool {
    exists|middle: StorageView, moved: Result<(), StorageError>|
        {
            &&& #[trigger] children_moved(
                g,
                crate::storage::children_of(g, victim),
                victim,
                survivor,
                middle,
                moved,
            )
            &&& match moved {
                Ok(_) => exists|stamp: Stamp| #[trigger]
                    crate::changes::is_drawn(stamp) && ({
                        let o = crate::changes::superseding(middle, victim, survivor, stamp);
                        after == o.graph && result == o.result
                    }),
                Err(e) => after == middle && result == Err::<(), StorageError>(e),
            }
        }
}

/// `after` and `result` are an outcome of merging one pair of roots, if they are
/// similar enough; the result tells whether they were merged.
pub open spec fn pair_merged(
    g: StorageView,
    pair: Pair,
    merge_threshold: i64,
    after: StorageView,
    result: Result<bool, StorageError>,
) -> bool {
    match survivor_and_victim(g, pair) {
        Some(sv) => if pair.similarity > merge_threshold {
            match result {
                Ok(done) => done && victim_merged(g, sv.0, sv.1, after, Ok(())),
                Err(e) => victim_merged(g, sv.0, sv.1, after, Err(e)),
            }
        } else {
            after == g && result == Ok::<bool, StorageError>(false)
        },
        None => after == g && result == Ok::<bool, StorageError>(false),
    }
}

/// `after` is an outcome of merging pairs of roots, one by one and without
/// refusal, where `count` of them were merged.
pub open spec fn pairs_merged(
    g: StorageView,
    pairs: Seq<Pair>,
    merge_threshold: i64,
    after: StorageView,
    count: nat,
) -> bool
    decreases pairs.len(),
{
    if pairs.len() == 0 {
        after == g && count == 0
    } else {
        exists|middle: StorageView, done: bool| #[trigger]
            pair_merged(middle, pairs.last(), merge_threshold, after, Ok(done)) && pairs_merged(
                g,
                pairs.drop_last(),
                merge_threshold,
                middle,
                if done {
                    (count - 1) as nat
                } else {
                    count
                },
            ) && (done ==> count > 0)
    }
}

/// `after` and the error are an outcome of merging pairs of roots up to the
/// first refusal.
pub open spec fn merging_refused(
    g: StorageView,
    pairs: Seq<Pair>,
    merge_threshold: i64,
    after: StorageView,
    error: StorageError,
) -> bool {
    exists|k: int, middle: StorageView, count: nat|
        0 <= k < pairs.len() && #[trigger] pairs_merged(
            g,
            pairs.take(k),
            merge_threshold,
            middle,
            count,
        ) && pair_merged(middle, pairs[k], merge_threshold, after, Err(error))
}

/// Tells who survives and who gives way when two roots are merged.
pub fn choose_survivor(db: &LoreDb, pair: Pair) -> (r: Option<(FragmentId, FragmentId)>)
    requires
        db.wf(),
    ensures
        r == survivor_and_victim(db@, pair),
{
    match (db.storage().get_fragment(pair.a), db.storage().get_fragment(pair.b)) {
        (Some(a), Some(b)) => {
            if a.superseded_by.is_none() && b.superseded_by.is_none() {
                if a.access_count >= b.access_count {
                    Some((pair.a, pair.b))
                } else {
                    Some((pair.b, pair.a))
                }
            } else {
                None
            }
        },
        _ => None,
    }
}

/// Merges one root into another.
pub fn merge_victim(db: &mut LoreDb, survivor: FragmentId, victim: FragmentId) -> (r: Result<
    (),
    StorageError,
>)
    requires
        old(db).wf(),
    ensures
        final(db).wf(),
        victim_merged(old(db)@, survivor, victim, final(db)@, r),
{
    let ghost before = db@;
    let children = db.children(victim);
    let moved = reparent_children(db, &children, victim, survivor);
    let ghost middle = db@;
    assert(children_moved(
        before,
        crate::storage::children_of(before, victim),
        victim,
        survivor,
        middle,
        moved,
    ));
    match moved {
        Ok(_) => {
            let stamp = Stamp::new();
            db.supersede_stamped(victim, survivor, stamp)
        },
        Err(e) => Err(e),
    }
}

/// Merges the pairs of roots that are more similar than a threshold, and tells
/// how many were merged.
pub fn phase1_root_merging(db: &mut LoreDb, similar_pairs: &Vec<Pair>, merge_threshold: i64) -> (r:
    Result<usize, StorageError>)
    requires
        old(db).wf(),
    ensures
        final(db).wf(),
        match r {
            Ok(n) => pairs_merged(
                old(db)@,
                similar_pairs@,
                merge_threshold,
                final(db)@,
                n as nat,
            ),
            Err(e) => merging_refused(
                old(db)@,
                similar_pairs@,
                merge_threshold,
                final(db)@,
                e,
            ),
        },
{
    let ghost before = db@;
    let mut merged: usize = 0;
    let mut i: usize = 0;
    while i < similar_pairs.len()
        invariant
            db.wf(),
            before == old(db)@,
            i <= similar_pairs.len(),
            merged <= i,
            pairs_merged(
                before,
                similar_pairs@.take(i as int),
                merge_threshold,
                db@,
                merged as nat,
            ),
        decreases similar_pairs.len() - i,
    {
        let pair = similar_pairs[i];
        let ghost middle = db@;
        let ghost count = merged as nat;
        let mut done: bool = false;
        if pair.similarity > merge_threshold {
            if let Some((survivor, victim)) = choose_survivor(db, pair) {
                match merge_victim(db, survivor, victim) {
                    Ok(_) => {
                        merged = merged + 1;
                        done = true;
                    },
                    Err(e) => {
                        proof {
                            assert(pairs_merged(
                                before,
                                similar_pairs@.take(i as int),
                                merge_threshold,
                                middle,
                                count,
                            ));
                            assert(pair_merged(
                                middle,
                                similar_pairs@[i as int],
                                merge_threshold,
                                db@,
                                Err(e),
                            ));
                        }
                        return Err(e);
                    },
                }
            }
        }
        proof {
            assert(similar_pairs@.take(i + 1).drop_last() == similar_pairs@.take(i as int));
            assert(similar_pairs@.take(i + 1).last() == pair);
            assert(pair_merged(middle, pair, merge_threshold, db@, Ok(done)));
        }
        i = i + 1;
    }
    assert(similar_pairs@.take(i as int) == similar_pairs@);
    Ok(merged)
}

/// Merges pairs of topics that are almost the same.
pub fn phase1_topic_merging(db: &mut LoreDb, similar_pairs: &Vec<Pair>) -> (r: Result<
    usize,
    StorageError,
>)
    requires
        old(db).wf(),
    ensures
        final(db).wf(),
        match r {
            Ok(n) => pairs_merged(
                old(db)@,
                similar_pairs@,
                TOPIC_MERGE_THRESHOLD,
                final(db)@,
                n as nat,
            ),
            Err(e) => merging_refused(
                old(db)@,
                similar_pairs@,
                TOPIC_MERGE_THRESHOLD,
                final(db)@,
                e,
            ),
        },
{
    phase1_root_merging(db, similar_pairs, TOPIC_MERGE_THRESHOLD)
}

// ---- linking ----

/// The associative links to make: for the first `n` pairs of roots, between the
/// children of one and the children of the other that are similar enough.
pub open spec fn planned_links(g: StorageView, pairs: Seq<Pair>, n: int) -> Seq<Pair>
    decreases n,
{
    if n <= 0 {
        Seq::empty()
    } else {
        let a = crate::storage::children_of(g, pairs[n - 1].a);
        let b = crate::storage::children_of(g, pairs[n - 1].b);
        planned_links(g, pairs, n - 1) + similar_across(a, b, a.len() as int, CROSS_THRESHOLD)
    }
}

/// The outcome of making associative links, one by one, up to the first refusal.
/// Each edge has its stamp.
pub open spec fn linking_all(g: StorageView, plan: Seq<Pair>, stamps: Seq<Stamp>) -> Outcome<()>
    decreases plan.len(),
{
    if plan.len() == 0 || stamps.len() == 0 {
        Outcome { graph: g, result: Ok(()) }
    } else {
        let o = linking_all(g, plan.drop_last(), stamps.drop_last());
        let p = plan.last();
        match o.result {
            Ok(_) => crate::changes::linking(
                o.graph,
                crate::changes::stamped_edge(
                    p.a,
                    p.b,
                    EdgeKind::Associative,
                    p.similarity,
                    None,
                    stamps.last(),
                ),
            ),
            Err(_) => o,
        }
    }
}

/// `after` and `result` are an outcome of making the planned links, for some
/// stamps; the result tells how many there are.
pub open spec fn links_made(
    g: StorageView,
    plan: Seq<Pair>,
    after: StorageView,
    result: Result<usize, StorageError>,
) -> bool {
    exists|stamps: Seq<Stamp>|
        {
            let o = #[trigger] linking_all(g, plan.take(stamps.len() as int), stamps);
            &&& stamps.len() <= plan.len()
            &&& forall|i: int|
                0 <= i < stamps.len() ==> crate::changes::is_drawn(#[trigger] stamps[i])
            &&& after == o.graph
            &&& match result {
                Ok(n) => o.result is Ok && n == plan.len() && stamps.len() == plan.len(),
                Err(e) => o.result == Err::<(), StorageError>(e),
            }
        }
}

/// Plans the associative links between the children of similar roots.
pub fn plan_links(db: &LoreDb, similar_pairs: &Vec<Pair>) -> (r: Vec<Pair>)
    requires
        db.wf(),
    ensures
        r@ == planned_links(db@, similar_pairs@, similar_pairs.len() as int),
{
    let mut plan: Vec<Pair> = Vec::new();
    let mut i: usize = 0;
    while i < similar_pairs.len()
        invariant
            db.wf(),
            i <= similar_pairs.len(),
            plan@ == planned_links(db@, similar_pairs@, i as int),
        decreases similar_pairs.len() - i,
    {
        let children_a = db.children(similar_pairs[i].a);
        let children_b = db.children(similar_pairs[i].b);
        let ghost fa = crate::fragment::fragment_views(children_a@);
        let ghost fb = crate::fragment::fragment_views(children_b@);
        let ghost before = plan@;
        let mut k: usize = 0;
        assert(before + similar_across(fa, fb, 0, CROSS_THRESHOLD) == before);
        while k < children_a.len()
            invariant
                k <= children_a.len(),
                fa == crate::fragment::fragment_views(children_a@),
                fb == crate::fragment::fragment_views(children_b@),
                plan@ == before + similar_across(fa, fb, k as int, CROSS_THRESHOLD),
            decreases children_a.len() - k,
        {
            let ghost so_far = plan@;
            push_similar(&mut plan, &children_a[k], &children_b, 0, CROSS_THRESHOLD);
            proof {
                assert(fb.skip(0) == fb);
                assert(fa[k as int] == children_a@[k as int]@);
                assert(plan@ == before + similar_across(fa, fb, k + 1, CROSS_THRESHOLD));
            }
            k = k + 1;
        }
        i = i + 1;
    }
    plan
}

/// Links the related children of similar roots, and tells how many links were
/// made.
pub fn phase2_link_creation(db: &mut LoreDb, similar_pairs: &Vec<Pair>) -> (r: Result<
    usize,
    StorageError,
>)
    requires
        old(db).wf(),
    ensures
        final(db).wf(),
        links_made(
            old(db)@,
            planned_links(old(db)@, similar_pairs@, similar_pairs.len() as int),
            final(db)@,
            r,
        ),
{
    let plan = plan_links(db, similar_pairs);
    let ghost before = db@;
    let ghost mut stamps: Seq<Stamp> = Seq::empty();
    let mut i: usize = 0;
    while i < plan.len()
        invariant
            db.wf(),
            i <= plan.len(),
            before == old(db)@,
            plan@ == planned_links(before, similar_pairs@, similar_pairs.len() as int),
            stamps.len() == i,
            forall|k: int| 0 <= k < stamps.len() ==> crate::changes::is_drawn(#[trigger] stamps[k]),
            db@ == linking_all(before, plan@.take(i as int), stamps).graph,
            linking_all(before, plan@.take(i as int), stamps).result is Ok,
        decreases plan.len() - i,
    {
        let p = plan[i];
        let stamp = Stamp::new();
        proof {
            assert(plan@.take(i + 1).drop_last() == plan@.take(i as int));
            assert(plan@.take(i + 1).last() == p);
            assert(stamps.push(stamp).drop_last() == stamps);
            stamps = stamps.push(stamp);
        }
        let linked = db.link_stamped(p.a, p.b, EdgeKind::Associative, p.similarity, None, stamp);
        i = i + 1;
        if let Err(e) = linked {
            return Err(e);
        }
    }
    assert(plan@.take(i as int) == plan@);
    Ok(plan.len())
}

// ---- forgetting ----

/// The edges after a cycle: associative ones lose weight, and those that became
/// too light are gone.
pub open spec fn edges_after_cycle(g: StorageView) -> StorageView {
    StorageView {
        edges: crate::storage::decayed(g.edges, EdgeKind::Associative, EDGE_DECAY).filter(
            crate::storage::not_weak(EdgeKind::Associative, MIN_EDGE_WEIGHT),
        ),
        ..g
    }
}

/// Lets associative edges lose weight, and removes those that became too light;
/// tells how many.
pub fn phase5_pruning(db: &mut LoreDb) -> (r: usize)
    requires
        old(db).wf(),
    ensures
        final(db).wf(),
        final(db)@ == edges_after_cycle(old(db)@),
        r == old(db)@.edges.len() - final(db)@.edges.len(),
{
    db.storage_mut().decay_edge_weights(EdgeKind::Associative, EDGE_DECAY);
    db.storage_mut().delete_weak_edges(EdgeKind::Associative, MIN_EDGE_WEIGHT)
}

/// `after` and `result` are an outcome of removing a fragment after its children
/// have moved to its parent, if it has one.
pub open spec fn fragment_forgotten(
    g: StorageView,
    id: FragmentId,
    after: StorageView,
    result: Result<(), StorageError>,
) -> bool {
    let children = crate::storage::children_of(g, id);
    match crate::storage::parent_of(g, id) {
        Some(p) => exists|middle: StorageView, moved: Result<(), StorageError>|
            {
                &&& #[trigger] children_moved(g, children, id, p.id, middle, moved)
                &&& match moved {
                    Ok(_) => after == crate::storage::without(middle, id) && result == Ok::<
                        (),
                        StorageError,
                    >(()),
                    Err(e) => after == middle && result == Err::<(), StorageError>(e),
                }
            },
        None => after == crate::storage::without(g, id) && result == Ok::<(), StorageError>(()),
    }
}

/// Removes a fragment after its children have moved to its parent, if it has
/// one.
pub fn reparent_and_prune(db: &mut LoreDb, id: FragmentId) -> (r: Result<(), StorageError>)
    requires
        old(db).wf(),
    ensures
        final(db).wf(),
        fragment_forgotten(old(db)@, id, final(db)@, r),
{
    let ghost before = db@;
    let children = db.children(id);
    if let Some(parent) = db.parent(id) {
        let moved = reparent_children(db, &children, id, parent.id);
        let ghost middle = db@;
        assert(children_moved(
            before,
            crate::storage::children_of(before, id),
            id,
            parent.id,
            middle,
            moved,
        ));
        if let Err(e) = moved {
            return Err(e);
        }
        return db.prune(id);
    }
    db.prune(id)
}

/// `after` is an outcome of removing fragments one by one without refusal.
pub open spec fn all_forgotten(g: StorageView, ids: Seq<FragmentId>, after: StorageView) -> bool
    decreases ids.len(),
{
    if ids.len() == 0 {
        after == g
    } else {
        exists|middle: StorageView| #[trigger]
            fragment_forgotten(middle, ids.last(), after, Ok(())) && all_forgotten(
                g,
                ids.drop_last(),
                middle,
            )
    }
}

/// `after` and the error are an outcome of removing fragments up to the first
/// refusal.
pub open spec fn forgetting_refused(
    g: StorageView,
    ids: Seq<FragmentId>,
    after: StorageView,
    error: StorageError,
) -> bool {
    exists|k: int, middle: StorageView|
        0 <= k < ids.len() && #[trigger] all_forgotten(g, ids.take(k), middle)
            && fragment_forgotten(middle, ids[k], after, Err(error))
}

/// A fragment that was never accessed.
pub open spec fn never_accessed() -> spec_fn(FragmentView) -> bool {
    |f: FragmentView| f.access_count == 0
}

/// The identifiers of a list.
pub open spec fn ids_of(fs: Seq<FragmentView>) -> Seq<FragmentId> {
    fs.map_values(|f: FragmentView| f.id)
}

/// Below the roots, what has a relevance under 0.02, was never accessed and is
/// older than 60 days.
pub open spec fn stale(g: StorageView, now: i64) -> Seq<FragmentId> {
    ids_of(
        g.fragments.filter(crate::storage::forgettable(20_000_000, (60 * DAY) as i64, now)).filter(
            never_accessed(),
        ),
    )
}

/// Below the roots, what has a relevance under 0.01 and is older than 90 days.
pub open spec fn very_stale(g: StorageView, now: i64) -> Seq<FragmentId> {
    ids_of(g.fragments.filter(crate::storage::forgettable(10_000_000, (90 * DAY) as i64, now)))
}

/// Removes fragments one by one, their children moving up.
fn forget_all(db: &mut LoreDb, ids: &Vec<FragmentId>) -> (r: Result<(), StorageError>)
    requires
        old(db).wf(),
    ensures
        final(db).wf(),
        match r {
            Ok(_) => all_forgotten(old(db)@, ids@, final(db)@),
            Err(e) => forgetting_refused(old(db)@, ids@, final(db)@, e),
        },
{
    let ghost before = db@;
    let mut i: usize = 0;
    while i < ids.len()
        invariant
            db.wf(),
            before == old(db)@,
            i <= ids.len(),
            all_forgotten(before, ids@.take(i as int), db@),
        decreases ids.len() - i,
    {
        let ghost middle = db@;
        let done = reparent_and_prune(db, ids[i]);
        if let Err(e) = done {
            assert(all_forgotten(before, ids@.take(i as int), middle));
            return Err(e);
        }
        proof {
            assert(ids@.take(i + 1).drop_last() == ids@.take(i as int));
            assert(all_forgotten(before, ids@.take(i + 1).drop_last(), middle));
            assert(ids@.take(i + 1).last() == ids@[i as int]);
            assert(done == Ok::<(), StorageError>(()));
            assert(fragment_forgotten(middle, ids@.take(i + 1).last(), db@, Ok(())));
        }
        i = i + 1;
    }
    assert(ids@.take(i as int) == ids@);
    Ok(())
}

/// The identifiers of fragments, all of them or only those never accessed.
fn collect_ids(fragments: &Vec<Fragment>, only_unaccessed: bool) -> (r: Vec<FragmentId>)
    ensures
        r@ == ids_of(
            if only_unaccessed {
                crate::fragment::fragment_views(fragments@).filter(never_accessed())
            } else {
                crate::fragment::fragment_views(fragments@)
            },
        ),
{
    let ghost fs = crate::fragment::fragment_views(fragments@);
    let mut out: Vec<FragmentId> = Vec::new();
    let mut i: usize = 0;
    proof {
        crate::lists::lemma_filter_none(fs, never_accessed());
        assert(out@ == ids_of(fs.take(0)));
        assert(out@ == ids_of(fs.take(0).filter(never_accessed())));
    }
    while i < fragments.len()
        invariant
            i <= fragments.len(),
            fs == crate::fragment::fragment_views(fragments@),
            out@ == ids_of(
                if only_unaccessed {
                    fs.take(i as int).filter(never_accessed())
                } else {
                    fs.take(i as int)
                },
            ),
        decreases fragments.len() - i,
    {
        let ghost seen = fs.take(i as int).filter(never_accessed());
        proof {
            crate::lists::lemma_filter_next(fs, never_accessed(), i as int);
            assert(fs[i as int] == fragments@[i as int]@);
            assert(ids_of(seen.push(fs[i as int])) == ids_of(seen).push(fs[i as int].id));
            assert(ids_of(fs.take(i + 1)) == ids_of(fs.take(i as int)).push(fs[i as int].id));
        }
        if !only_unaccessed || fragments[i].access_count == 0 {
            out.push(fragments[i].id);
        }
        i = i + 1;
    }
    assert(fs.take(i as int) == fs);
    out
}

/// A number, as far as it can be counted.
pub open spec fn counted(n: nat) -> nat {
    if n <= usize::MAX {
        n
    } else {
        usize::MAX as nat
    }
}

/// `after` and `result` are an outcome of forgetting: first what is stale and
/// was never accessed, then what is very stale. The result tells how many.
pub open spec fn forgetting(
    g: StorageView,
    now: i64,
    after: StorageView,
    result: Result<usize, StorageError>,
) -> bool {
    match result {
        Ok(n) => exists|middle: StorageView| #[trigger]
            all_forgotten(g, stale(g, now), middle) && all_forgotten(
                middle,
                very_stale(middle, now),
                after,
            ) && n == counted(stale(g, now).len() + very_stale(middle, now).len()),
        Err(e) => {
            ||| forgetting_refused(g, stale(g, now), after, e)
            ||| exists|middle: StorageView| #[trigger]
                all_forgotten(g, stale(g, now), middle) && forgetting_refused(
                    middle,
                    very_stale(middle, now),
                    after,
                    e,
                )
        },
    }
}

/// Removes fragments of negligible relevance; roots are never removed. Tells
/// how many.
pub fn phase6_fragment_pruning(db: &mut LoreDb, now: i64) -> (r: Result<usize, StorageError>)
    requires
        old(db).wf(),
    ensures
        final(db).wf(),
        forgetting(old(db)@, now, final(db)@, r),
{
    let ghost before = db@;
    let first = collect_ids(
        &db.storage().get_low_relevance_fragments(20_000_000, 60 * DAY, now),
        true,
    );
    if let Err(e) = forget_all(db, &first) {
        return Err(e);
    }
    let ghost middle = db@;
    assert(all_forgotten(before, stale(before, now), middle));
    let second = collect_ids(
        &db.storage().get_low_relevance_fragments(10_000_000, 90 * DAY, now),
        false,
    );
    assert(second@ == very_stale(middle, now));
    if let Err(e) = forget_all(db, &second) {
        return Err(e);
    }
    if first.len() as u128 + second.len() as u128 > usize::MAX as u128 {
        return Ok(usize::MAX);
    }
    Ok(first.len() + second.len())
}

// ---- new summaries ----

/// A child came after the root was last accessed.
pub open spec fn has_new_child(root: FragmentView, children: Seq<FragmentView>) -> bool {
    exists|i: int| 0 <= i < children.len() && (#[trigger] children[i]).created_at
        > root.last_accessed
}

/// The contents of some fragments as the items of a list.
pub open spec fn bullets(fs: Seq<FragmentView>) -> Seq<Seq<char>> {
    Seq::new(fs.len(), |i: int| "- "@ + fs[i].content)
}

/// The request to sum up the children of a root.
pub open spec fn summary_request(root: FragmentView, children: Seq<FragmentView>) -> Seq<char> {
    "Given these child fragments of a knowledge node:\n\nCurrent content: \""@
        + crate::text::first_chars(root.content, 200) + "\"\n\nChildren:\n"@
        + crate::text::joined(bullets(children), "\n"@)
        + "\n\nWrite a self-contained overview paragraph (3-5 sentences) that captures the key knowledge at a higher abstraction level. Do not use bullet points or lists — write flowing prose.\n\nRespond with ONLY the paragraph, no explanation."@
}

/// The request to sum up the children of a root anew, if one of them came after
/// the root was last accessed.
pub fn resummary_prompt(db: &LoreDb, root: &Fragment) -> (r: Option<String>)
    requires
        db.wf(),
    ensures
        ({
            let children = crate::storage::children_of(db@, root.id);
            match r {
                Some(s) => has_new_child(root@, children) && s@ == summary_request(root@, children),
                None => !has_new_child(root@, children),
            }
        }),
{
    let children = db.children(root.id);
    let ghost fs = crate::fragment::fragment_views(children@);
    let mut new_child: bool = false;
    let mut items: Vec<String> = Vec::new();
    let mut i: usize = 0;
    while i < children.len()
        invariant
            i <= children.len(),
            fs == crate::fragment::fragment_views(children@),
            new_child <==> exists|k: int|
                0 <= k < i && (#[trigger] fs[k]).created_at > root.last_accessed,
            crate::text::views(items@) == bullets(fs).take(i as int),
        decreases children.len() - i,
    {
        assert(fs[i as int] == children@[i as int]@);
        if children[i].created_at > root.last_accessed {
            new_child = true;
        }
        let mut item: String = "- ".to_owned();
        item.append(children[i].content.as_str());
        proof {
            assert(crate::text::views(items@.push(item)) == crate::text::views(items@).push(item@));
            assert(bullets(fs).take(i + 1) == bullets(fs).take(i as int).push(item@));
        }
        items.push(item);
        i = i + 1;
    }
    if !new_child {
        return None;
    }
    assert(bullets(fs).take(i as int) == bullets(fs));
    let mut s: String =
        "Given these child fragments of a knowledge node:\n\nCurrent content: \"".to_owned();
    s.append(take_chars(root.content.as_str(), 200).as_str());
    s.append("\"\n\nChildren:\n");
    s.append(join(&items, "\n").as_str());
    s.append(
        "\n\nWrite a self-contained overview paragraph (3-5 sentences) that captures the key knowledge at a higher abstraction level. Do not use bullet points or lists — write flowing prose.\n\nRespond with ONLY the paragraph, no explanation.",
    );
    Some(s)
}

/// Gives a root the content of a reply, with the embedding of that content if
/// there is one, unless the reply is blank. Tells whether it did.
pub fn accept_resummary(
    db: &mut LoreDb,
    root: &Fragment,
    reply: &str,
    embedding: Option<&Vec<i32>>,
) -> (r: bool)
    requires
        old(db).wf(),
    ensures
        final(db).wf(),
        r == (crate::text::trimmed(reply@).len() > 0),
        !r ==> final(db)@ == old(db)@,
        r ==> exists|now: i64|
            now >= 0 && final(db)@ == (StorageView {
                fragments: #[trigger] crate::storage::updated(
                    old(db)@.fragments,
                    root.id,
                    crate::storage::rewritten(
                        crate::text::trimmed(reply@),
                        root.summary@,
                        crate::storage::numbers_view(embedding),
                        now,
                    ),
                ),
                ..old(db)@
            }),
{
    if is_blank(reply) {
        return false;
    }
    let content = trim(reply);
    db.update(root.id, content.as_str(), root.summary.as_str(), embedding);
    true
}

// ---- a whole cycle ----

/// The graph after all relevance has been recomputed.
pub open spec fn after_fading(g: StorageView, now: i64) -> StorageView {
    StorageView { fragments: crate::storage::all_faded(g.fragments, now), ..g }
}

/// The pairs to link after some roots were merged: they are looked for again if
/// any were.
pub open spec fn pairs_to_link(
    g: StorageView,
    pairs: Seq<Pair>,
    merged: nat,
    threshold: i64,
) -> Seq<Pair> {
    if merged > 0 {
        similar_roots(g, threshold)
    } else {
        pairs
    }
}

/// `after` and `stats` are an outcome of the first part of a cycle: relevance
/// fades, similar roots are merged, and related children are linked.
pub open spec fn settled(
    g: StorageView,
    before: ConsolidationStats,
    similarity_threshold: i64,
    merge_threshold: i64,
    now: i64,
    after: StorageView,
    stats: ConsolidationStats,
) -> bool {
    let faded = after_fading(g, now);
    let pairs = similar_roots(faded, similarity_threshold);
    exists|middle: StorageView|
        {
            let again = pairs_to_link(
                middle,
                pairs,
                stats.roots_merged as nat,
                similarity_threshold,
            );
            &&& #[trigger] pairs_merged(
                faded,
                pairs,
                merge_threshold,
                middle,
                stats.roots_merged as nat,
            )
            &&& links_made(
                middle,
                planned_links(middle, again, again.len() as int),
                after,
                Ok(stats.links_created),
            )
            &&& stats == (ConsolidationStats {
                relevance_updated: g.fragments.filter(crate::storage::active()).len() as usize,
                roots_merged: stats.roots_merged,
                links_created: stats.links_created,
                ..before
            })
        }
}

/// `after` and the error are an outcome of the first part of a cycle that was
/// refused on the way.
pub open spec fn settling_refused(
    g: StorageView,
    similarity_threshold: i64,
    merge_threshold: i64,
    now: i64,
    after: StorageView,
    error: StorageError,
) -> bool {
    let faded = after_fading(g, now);
    let pairs = similar_roots(faded, similarity_threshold);
    ||| merging_refused(faded, pairs, merge_threshold, after, error)
    ||| exists|middle: StorageView, merged: nat|
        {
            let again = pairs_to_link(middle, pairs, merged, similarity_threshold);
            &&& #[trigger] pairs_merged(faded, pairs, merge_threshold, middle, merged)
            &&& links_made(
                middle,
                planned_links(middle, again, again.len() as int),
                after,
                Err(error),
            )
        }
}

/// The first part of a cycle: lets relevance fade, merges similar roots and
/// links related children.
pub fn settle(
    db: &mut LoreDb,
    stats: ConsolidationStats,
    similarity_threshold: i64,
    merge_threshold: i64,
    now: i64,
) -> (r: Result<ConsolidationStats, StorageError>)
    requires
        old(db).wf(),
    ensures
        final(db).wf(),
        match r {
            Ok(s) => settled(
                old(db)@,
                stats,
                similarity_threshold,
                merge_threshold,
                now,
                final(db)@,
                s,
            ),
            Err(e) => settling_refused(
                old(db)@,
                similarity_threshold,
                merge_threshold,
                now,
                final(db)@,
                e,
            ),
        },
{
    let ghost before = stats;
    let mut stats = stats;
    stats.relevance_updated = db.storage_mut().recompute_all_relevance(now);
    let ghost faded = db@;
    assert(faded == after_fading(old(db)@, now));
    let pairs = phase1_similarity_detection(db, similarity_threshold);
    match phase1_root_merging(db, &pairs, merge_threshold) {
        Ok(n) => {
            stats.roots_merged = n;
        },
        Err(e) => {
            return Err(e);
        },
    }
    let ghost middle = db@;
    assert(pairs_merged(faded, pairs@, merge_threshold, middle, stats.roots_merged as nat));
    let again = if stats.roots_merged > 0 {
        phase1_similarity_detection(db, similarity_threshold)
    } else {
        pairs
    };
    match phase2_link_creation(db, &again) {
        Ok(n) => {
            stats.links_created = n;
            proof {
                assert(pairs_merged(
                    after_fading(old(db)@, now),
                    similar_roots(after_fading(old(db)@, now), similarity_threshold),
                    merge_threshold,
                    middle,
                    stats.roots_merged as nat,
                ));
                assert(again@ == pairs_to_link(
                    middle,
                    similar_roots(after_fading(old(db)@, now), similarity_threshold),
                    stats.roots_merged as nat,
                    similarity_threshold,
                ));
                assert(stats == (ConsolidationStats {
                    relevance_updated: old(db)@.fragments.filter(
                        crate::storage::active(),
                    ).len() as usize,
                    roots_merged: stats.roots_merged,
                    links_created: stats.links_created,
                    ..before
                }));
            }
            Ok(stats)
        },
        Err(e) => Err(e),
    }
}

/// The last part of a cycle: lets edges lose weight, and forgets.
pub fn forget(db: &mut LoreDb, stats: ConsolidationStats, now: i64) -> (r: Result<
    ConsolidationStats,
    StorageError,
>)
    requires
        old(db).wf(),
    ensures
        final(db).wf(),
        match r {
            Ok(s) => s == counts_after_forgetting(old(db)@, stats, s.fragments_pruned) && forgetting(
                edges_after_cycle(old(db)@),
                now,
                final(db)@,
                Ok(s.fragments_pruned),
            ),
            Err(e) => forgetting(edges_after_cycle(old(db)@), now, final(db)@, Err(e)),
        },
{
    let mut stats = stats;
    stats.edges_pruned = phase5_pruning(db);
    match phase6_fragment_pruning(db, now) {
        Ok(n) => {
            stats.fragments_pruned = n;
            Ok(stats)
        },
        Err(e) => Err(e),
    }
}

// ---- the cycle ----

/// The parts of a cycle, in the order in which they come.
#[derive(Debug, Clone, Copy, PartialEq, Eq, Structural)]
pub enum Phase {
    /// Conversations that wait are digested.
    Digestion,
    /// Relevance fades, roots are merged, children are linked.
    Settling,
    /// Roots with new children get new summaries.
    Resummarization,
    /// Insights are drawn from dense clusters.
    Reflection,
    /// Contradictions between siblings are resolved.
    Contradictions,
    /// Edges lose weight, and fragments are forgotten.
    Forgetting,
    Done,
}

/// The part takes a language model.
pub open spec fn takes_model(p: Phase) -> bool {
    p == Phase::Digestion || p == Phase::Resummarization || p == Phase::Reflection || p
        == Phase::Contradictions
}

/// The place of a part in a cycle.
pub open spec fn phase_place(p: Phase) -> int {
    match p {
        Phase::Digestion => 0,
        Phase::Settling => 1,
        Phase::Resummarization => 2,
        Phase::Reflection => 3,
        Phase::Contradictions => 4,
        Phase::Forgetting => 5,
        Phase::Done => 6,
    }
}

/// The first part of a cycle, with a language model or without.
pub fn first_phase(with_model: bool) -> (r: Phase)
    ensures
        r == (if with_model {
            Phase::Digestion
        } else {
            Phase::Settling
        }),
{
    if with_model {
        Phase::Digestion
    } else {
        Phase::Settling
    }
}

/// `next` is the first part behind `p` that a cycle has.
pub open spec fn comes_next(p: Phase, with_model: bool, next: Phase) -> bool {
    &&& phase_place(next) > phase_place(p) || next == Phase::Done
    &&& with_model || !takes_model(next)
    &&& forall|q: Phase|
        #![trigger phase_place(q)]
        phase_place(p) < phase_place(q) < phase_place(next) ==> takes_model(q) && !with_model
}

/// The next part of a cycle. Without a language model the parts that take one
/// are left out.
pub fn next_phase(phase: Phase, with_model: bool) -> (r: Phase)
    ensures
        comes_next(phase, with_model, r),
{
    match phase {
        Phase::Digestion => Phase::Settling,
        Phase::Settling => if with_model {
            Phase::Resummarization
        } else {
            Phase::Forgetting
        },
        Phase::Resummarization => if with_model {
            Phase::Reflection
        } else {
            Phase::Forgetting
        },
        Phase::Reflection => if with_model {
            Phase::Contradictions
        } else {
            Phase::Forgetting
        },
        Phase::Contradictions => Phase::Forgetting,
        Phase::Forgetting => Phase::Done,
        Phase::Done => Phase::Done,
    }
}

/// What the last part of a cycle counts.
pub open spec fn counts_after_forgetting(
    g: StorageView,
    before: ConsolidationStats,
    pruned: usize,
) -> ConsolidationStats {
    ConsolidationStats {
        edges_pruned: (g.edges.len() - edges_after_cycle(g).edges.len()) as usize,
        fragments_pruned: pruned,
        ..before
    }
}

/// `after` and `stats` are an outcome of a cycle without a language model.
pub open spec fn cycled(
    g: StorageView,
    similarity_threshold: i64,
    merge_threshold: i64,
    now: i64,
    after: StorageView,
    stats: ConsolidationStats,
) -> bool {
    exists|middle: StorageView, half: ConsolidationStats|
        {
            &&& #[trigger] settled(
                g,
                no_counts(),
                similarity_threshold,
                merge_threshold,
                now,
                middle,
                half,
            )
            &&& stats == counts_after_forgetting(middle, half, stats.fragments_pruned)
            &&& forgetting(edges_after_cycle(middle), now, after, Ok(stats.fragments_pruned))
        }
}

/// `after` and the error are an outcome of a cycle without a language model that
/// was refused on the way.
pub open spec fn cycling_refused(
    g: StorageView,
    similarity_threshold: i64,
    merge_threshold: i64,
    now: i64,
    after: StorageView,
    error: StorageError,
) -> bool {
    ||| settling_refused(g, similarity_threshold, merge_threshold, now, after, error)
    ||| exists|middle: StorageView, half: ConsolidationStats|
        {
            &&& #[trigger] settled(
                g,
                no_counts(),
                similarity_threshold,
                merge_threshold,
                now,
                middle,
                half,
            )
            &&& forgetting(edges_after_cycle(middle), now, after, Err(error))
        }
}

/// A whole cycle without a language model, as of a given time.
pub fn run_consolidation(db: &mut LoreDb, config: &ConsolidationConfig, now: i64) -> (r: Result<
    ConsolidationStats,
    StorageError,
>)
    requires
        old(db).wf(),
    ensures
        final(db).wf(),
        match r {
            Ok(s) => cycled(
                old(db)@,
                config.similarity_threshold,
                config.merge_threshold,
                now,
                final(db)@,
                s,
            ),
            Err(e) => cycling_refused(
                old(db)@,
                config.similarity_threshold,
                config.merge_threshold,
                now,
                final(db)@,
                e,
            ),
        },
{
    let ghost before = db@;
    match settle(
        db,
        ConsolidationStats::default(),
        config.similarity_threshold,
        config.merge_threshold,
        now,
    ) {
        Ok(half) => {
            let ghost middle = db@;
            assert(settled(
                before,
                no_counts(),
                config.similarity_threshold,
                config.merge_threshold,
                now,
                middle,
                half,
            ));
            forget(db, half, now)
        },
        Err(e) => Err(e),
    }
}

// ---- laws ----

/// Moving children changes no fragment.
proof fn lemma_moving_keeps_fragments(
    g: StorageView,
    children: Seq<FragmentView>,
    from: FragmentId,
    to: FragmentId,
    stamps: Seq<Stamp>,
)
    ensures
        reparenting_all(g, children, from, to, stamps).graph.fragments == g.fragments,
    decreases children.len(),
{
    if children.len() > 0 && stamps.len() > 0 {
        lemma_moving_keeps_fragments(g, children.drop_last(), from, to, stamps.drop_last());
    }
}

/// Two fragments differ at most in what supersedes them.
pub open spec fn alike(a: FragmentView, b: FragmentView) -> bool {
    b == (FragmentView { superseded_by: b.superseded_by, ..a })
}

/// A fragment is in a list, whatever supersedes it there.
pub open spec fn holds_like(fs: Seq<FragmentView>, f: FragmentView) -> bool {
    exists|k: int| 0 <= k < fs.len() && alike(f, #[trigger] fs[k])
}

/// Removing a fragment leaves all others, and adds none.
proof fn lemma_removal_spares_others(
    g: StorageView,
    id: FragmentId,
    after: StorageView,
    result: Result<(), StorageError>,
)
    requires
        fragment_forgotten(g, id, after, result),
    ensures
        forall|f: FragmentView| #[trigger]
            holds_like(g.fragments, f) && f.id != id ==> holds_like(after.fragments, f),
        forall|f: FragmentView| #[trigger]
            holds_like(after.fragments, f) ==> holds_like(g.fragments, f),
{
    let keep = crate::storage::other_than(id);
    let to = crate::storage::released(id, crate::storage::heir(g.fragments, id));
    let kept = g.fragments.filter(keep);
    let left = kept.map_values(to);
    crate::lists::lemma_filter_members(g.fragments, keep);
    let children = crate::storage::children_of(g, id);
    assert(after.fragments == g.fragments || after.fragments == left) by {
        if let Some(p) = crate::storage::parent_of(g, id) {
            let (middle, moved) = choose|middle: StorageView, moved: Result<(), StorageError>|
                {
                    &&& #[trigger] children_moved(g, children, id, p.id, middle, moved)
                    &&& match moved {
                        Ok(_) => after == crate::storage::without(middle, id) && result == Ok::<
                        (),
                        StorageError,
                    >(()),
                        Err(e) => after == middle && result == Err::<(), StorageError>(e),
                    }
                };
            let stamps = choose|stamps: Seq<Stamp>|
                middle == (#[trigger] reparenting_all(
                    g,
                    children.take(stamps.len() as int),
                    id,
                    p.id,
                    stamps,
                )).graph;
            lemma_moving_keeps_fragments(
                g,
                children.take(stamps.len() as int),
                id,
                p.id,
                stamps,
            );
        }
    }
    assert forall|f: FragmentView| #[trigger]
        holds_like(g.fragments, f) && f.id != id implies holds_like(after.fragments, f) by {
        let i = choose|i: int| 0 <= i < g.fragments.len() && alike(f, #[trigger] g.fragments[i]);
        assert(keep(g.fragments[i]));
        if after.fragments == left {
            let k = choose|k: int| 0 <= k < kept.len() && kept[k] == g.fragments[i];
            assert(left[k] == to(kept[k]));
            assert(alike(f, left[k]));
        }
    }
    assert forall|f: FragmentView| #[trigger]
        holds_like(after.fragments, f) implies holds_like(g.fragments, f) by {
        if after.fragments == left {
            let k = choose|k: int| 0 <= k < left.len() && alike(f, #[trigger] left[k]);
            assert(left[k] == to(kept[k]));
            assert(g.fragments.contains(kept[k]));
            let i = choose|i: int| 0 <= i < g.fragments.len() && g.fragments[i] == kept[k];
            assert(alike(f, g.fragments[i]));
        }
    }
}

/// Removing fragments leaves all others, and adds none.
proof fn lemma_removals_spare_others(g: StorageView, ids: Seq<FragmentId>, after: StorageView)
    requires
        all_forgotten(g, ids, after),
    ensures
        forall|f: FragmentView| #[trigger]
            holds_like(g.fragments, f) && !ids.contains(f.id) ==> holds_like(after.fragments, f),
        forall|f: FragmentView| #[trigger]
            holds_like(after.fragments, f) ==> holds_like(g.fragments, f),
    decreases ids.len(),
{
    if ids.len() > 0 {
        let middle = choose|middle: StorageView| #[trigger]
            fragment_forgotten(middle, ids.last(), after, Ok(())) && all_forgotten(
                g,
                ids.drop_last(),
                middle,
            );
        lemma_removals_spare_others(g, ids.drop_last(), middle);
        lemma_removal_spares_others(middle, ids.last(), after, Ok(()));
        assert forall|f: FragmentView| #[trigger]
            holds_like(g.fragments, f) && !ids.contains(f.id) implies holds_like(
            after.fragments,
            f,
        ) by {
            if ids.drop_last().contains(f.id) {
                let k = choose|k: int| 0 <= k < ids.len() - 1 && ids.drop_last()[k] == f.id;
                assert(ids[k] == f.id);
            }
            assert(ids[ids.len() - 1] == ids.last());
            assert(holds_like(middle.fragments, f));
        }
        assert forall|f: FragmentView| #[trigger]
            holds_like(after.fragments, f) implies holds_like(g.fragments, f) by {
            assert(holds_like(middle.fragments, f));
        }
    }
}

/// Removing fragments up to the first refusal leaves all others.
proof fn lemma_refused_removals_spare_others(
    g: StorageView,
    ids: Seq<FragmentId>,
    after: StorageView,
    error: StorageError,
)
    requires
        forgetting_refused(g, ids, after, error),
    ensures
        forall|f: FragmentView| #[trigger]
            holds_like(g.fragments, f) && !ids.contains(f.id) ==> holds_like(after.fragments, f),
{
    let (k, middle) = choose|k: int, middle: StorageView|
        0 <= k < ids.len() && #[trigger] all_forgotten(g, ids.take(k), middle)
            && fragment_forgotten(middle, ids[k], after, Err(error));
    lemma_removals_spare_others(g, ids.take(k), middle);
    lemma_removal_spares_others(middle, ids[k], after, Err(error));
    assert forall|f: FragmentView| #[trigger]
        holds_like(g.fragments, f) && !ids.contains(f.id) implies holds_like(after.fragments, f) by {
        if ids.take(k).contains(f.id) {
            let j = choose|j: int| 0 <= j < k && ids.take(k)[j] == f.id;
            assert(ids[j] == f.id);
        }
        assert(holds_like(middle.fragments, f));
    }
}

/// A fragment below the roots that has less than some relevance left, and is
/// older than some age.
pub open spec fn is_negligible(
    f: FragmentView,
    max_relevance: i64,
    min_age_secs: int,
    now: i64,
) -> bool {
    f.relevance_score < max_relevance && f.created_at < now - min_age_secs && f.depth > 0
}

/// What is not stale is not among the stale fragments of a memory, nor of what
/// is left of it.
proof fn lemma_not_stale(g: StorageView, left: StorageView, now: i64, f: FragmentView)
    requires
        crate::storage::unique_fragments(g.fragments),
        g.fragments.contains(f),
        forall|e: FragmentView| #[trigger]
            holds_like(left.fragments, e) ==> holds_like(g.fragments, e),
    ensures
        !(is_negligible(f, 20_000_000, 60 * DAY, now) && f.access_count == 0) ==> !stale(
            left,
            now,
        ).contains(f.id),
        !is_negligible(f, 10_000_000, 90 * DAY, now) ==> !very_stale(left, now).contains(f.id),
{
    let p1 = crate::storage::forgettable(20_000_000, (60 * DAY) as i64, now);
    let p2 = crate::storage::forgettable(10_000_000, (90 * DAY) as i64, now);
    let s1 = left.fragments.filter(p1);
    let s2 = left.fragments.filter(p2);
    let s3 = s1.filter(never_accessed());
    crate::lists::lemma_filter_members(left.fragments, p1);
    crate::lists::lemma_filter_members(left.fragments, p2);
    crate::lists::lemma_filter_members(s1, never_accessed());
    let i = choose|i: int| 0 <= i < g.fragments.len() && g.fragments[i] == f;
    crate::storage::lemma_fragment_at(g.fragments, i);
    if stale(left, now).contains(f.id) {
        let k = choose|k: int| 0 <= k < stale(left, now).len() && stale(left, now)[k] == f.id;
        assert(s3[k].id == f.id);
        assert(never_accessed()(s3[k]));
        assert(s1.contains(s3[k]));
        let j = choose|j: int| 0 <= j < s1.len() && s1[j] == s3[k];
        assert(p1(s1[j]));
        lemma_like_its_namesake(g, left, i, s1[j]);
    }
    if very_stale(left, now).contains(f.id) {
        let k = choose|k: int| 0 <= k < very_stale(left, now).len() && very_stale(left, now)[k]
            == f.id;
        assert(s2[k].id == f.id);
        assert(p2(s2[k]));
        lemma_like_its_namesake(g, left, i, s2[k]);
    }
}

/// What is left of a fragment is like it.
proof fn lemma_like_its_namesake(g: StorageView, left: StorageView, i: int, e: FragmentView)
    requires
        crate::storage::unique_fragments(g.fragments),
        0 <= i < g.fragments.len(),
        left.fragments.contains(e),
        e.id == g.fragments[i].id,
        forall|x: FragmentView| #[trigger]
            holds_like(left.fragments, x) ==> holds_like(g.fragments, x),
    ensures
        alike(e, g.fragments[i]),
{
    let k = choose|k: int| 0 <= k < left.fragments.len() && left.fragments[k] == e;
    assert(alike(e, left.fragments[k]));
    assert(holds_like(left.fragments, e));
    let m = choose|m: int| 0 <= m < g.fragments.len() && alike(e, #[trigger] g.fragments[m]);
    crate::storage::lemma_fragment_at(g.fragments, m);
    crate::storage::lemma_fragment_at(g.fragments, i);
}

/// Forgetting takes nothing but what has next to no relevance left, is old, and
/// was either never accessed or is all but gone. Everything else stays, even
/// where forgetting is refused on the way; only that it may lose a successor.
pub proof fn law_forgetting_spares(
    g: StorageView,
    now: i64,
    after: StorageView,
    result: Result<usize, StorageError>,
    f: FragmentView,
)
    requires
        crate::storage::unique_fragments(g.fragments),
        forgetting(g, now, after, result),
        g.fragments.contains(f),
        !(is_negligible(f, 20_000_000, 60 * DAY, now) && f.access_count == 0),
        !is_negligible(f, 10_000_000, 90 * DAY, now),
    ensures
        holds_like(after.fragments, f),
{
    let i = choose|i: int| 0 <= i < g.fragments.len() && g.fragments[i] == f;
    assert(alike(f, g.fragments[i]));
    assert(holds_like(g.fragments, f));
    lemma_not_stale(g, g, now, f);
    match result {
        Ok(_) => {
            let middle = choose|middle: StorageView| #[trigger]
                all_forgotten(g, stale(g, now), middle) && all_forgotten(
                    middle,
                    very_stale(middle, now),
                    after,
                );
            lemma_removals_spare_others(g, stale(g, now), middle);
            lemma_not_stale(g, middle, now, f);
            lemma_removals_spare_others(middle, very_stale(middle, now), after);
        },
        Err(e) => {
            if forgetting_refused(g, stale(g, now), after, e) {
                lemma_refused_removals_spare_others(g, stale(g, now), after, e);
            } else {
                let middle = choose|middle: StorageView| #[trigger]
                    all_forgotten(g, stale(g, now), middle) && forgetting_refused(
                        middle,
                        very_stale(middle, now),
                        after,
                        e,
                    );
                lemma_removals_spare_others(g, stale(g, now), middle);
                lemma_not_stale(g, middle, now, f);
                lemma_refused_removals_spare_others(middle, very_stale(middle, now), after, e);
            }
        },
    }
}

/// Roots are never forgotten, however irrelevant they are.
pub proof fn law_roots_are_kept(
    g: StorageView,
    now: i64,
    after: StorageView,
    result: Result<usize, StorageError>,
    f: FragmentView,
)
    requires
        crate::storage::unique_fragments(g.fragments),
        forgetting(g, now, after, result),
        g.fragments.contains(f),
        f.depth == 0,
    ensures
        holds_like(after.fragments, f),
{
    law_forgetting_spares(g, now, after, result, f);
}

/// Where children have moved without refusal, each of them has an edge from its
/// new parent.
proof fn lemma_children_arrive(
    g: StorageView,
    children: Seq<FragmentView>,
    from: FragmentId,
    to: FragmentId,
    stamps: Seq<Stamp>,
    i: int,
)
    requires
        from != to,
        stamps.len() == children.len(),
        reparenting_all(g, children, from, to, stamps).result is Ok,
        0 <= i < children.len(),
    ensures
        has_child_edge(
            reparenting_all(g, children, from, to, stamps).graph.edges,
            to,
            children[i].id,
        ),
    decreases children.len(),
{
    let n = children.len() - 1;
    let o = reparenting_all(g, children.drop_last(), from, to, stamps.drop_last());
    let child = children.last().id;
    let keep = crate::storage::not_between(from, child, EdgeKind::Hierarchical);
    let kept = o.graph.edges.filter(keep);
    let e = crate::changes::stamped_edge(
        to,
        child,
        EdgeKind::Hierarchical,
        ONE,
        None,
        stamps.last(),
    );
    let all = reparenting_all(g, children, from, to, stamps).graph.edges;
    assert(all == kept.push(e));
    if i == n {
        assert(all[kept.len() as int] == e);
    } else {
        lemma_children_arrive(g, children.drop_last(), from, to, stamps.drop_last(), i);
        assert(children.drop_last()[i] == children[i]);
        let k = choose|k: int|
            0 <= k < o.graph.edges.len() && is_child_edge(
                #[trigger] o.graph.edges[k],
                to,
                children[i].id,
            );
        crate::lists::lemma_filter_members(o.graph.edges, keep);
        assert(keep(o.graph.edges[k]));
        let m = choose|m: int| 0 <= m < kept.len() && kept[m] == o.graph.edges[k];
        assert(all[m] == o.graph.edges[k]);
    }
}

/// An edge that makes a fragment the child of another.
pub open spec fn is_child_edge(e: EdgeView, parent: FragmentId, child: FragmentId) -> bool {
    e.source == parent && e.target == child && e.kind == EdgeKind::Hierarchical
}

/// Some edge makes a fragment the child of another.
pub open spec fn has_child_edge(
    edges: Seq<EdgeView>,
    parent: FragmentId,
    child: FragmentId,
) -> bool {
    exists|k: int| 0 <= k < edges.len() && is_child_edge(#[trigger] edges[k], parent, child)
}

/// When a fragment is forgotten, its children become children of its parent. (A
/// fragment that is its own parent or child has no such place to go.)
pub proof fn law_children_move_up(
    g: StorageView,
    id: FragmentId,
    after: StorageView,
    parent: FragmentView,
    child: FragmentView,
)
    requires
        fragment_forgotten(g, id, after, Ok(())),
        crate::storage::parent_of(g, id) == Some(parent),
        crate::storage::children_of(g, id).contains(child),
        parent.id != id,
        child.id != id,
    ensures
        has_child_edge(after.edges, parent.id, child.id),
{
    let children = crate::storage::children_of(g, id);
    let (middle, moved) = choose|middle: StorageView, moved: Result<(), StorageError>|
        {
            &&& #[trigger] children_moved(g, children, id, parent.id, middle, moved)
            &&& match moved {
                Ok(_) => after == crate::storage::without(middle, id),
                Err(e) => after == middle && Ok::<(), StorageError>(()) == Err::<(), StorageError>(
                    e,
                ),
            }
        };
    let stamps = choose|stamps: Seq<Stamp>|
        {
            let o = #[trigger] reparenting_all(
                g,
                children.take(stamps.len() as int),
                id,
                parent.id,
                stamps,
            );
            &&& stamps.len() <= children.len()
            &&& moved is Ok ==> stamps.len() == children.len()
            &&& middle == o.graph
            &&& moved == o.result
        };
    assert(children.take(stamps.len() as int) == children);
    let i = choose|i: int| 0 <= i < children.len() && children[i] == child;
    lemma_children_arrive(g, children, id, parent.id, stamps, i);
    let k = choose|k: int|
        0 <= k < middle.edges.len() && is_child_edge(
            #[trigger] middle.edges[k],
            parent.id,
            child.id,
        );
    let keep = crate::storage::apart_from(id);
    crate::lists::lemma_filter_members(middle.edges, keep);
    assert(keep(middle.edges[k]));
    let m = choose|m: int| 0 <= m < after.edges.len() && after.edges[m] == middle.edges[k];
    assert(is_child_edge(after.edges[m], parent.id, child.id));
}

/// When a root is merged into another one, its children become children of the
/// survivor, and it is marked as superseded by it.
pub proof fn law_merging_hands_over(
    g: StorageView,
    survivor: FragmentId,
    victim: FragmentId,
    after: StorageView,
    i: int,
)
    requires
        victim_merged(g, survivor, victim, after, Ok(())),
        survivor != victim,
        0 <= i < g.fragments.len(),
        g.fragments[i].id == victim,
    ensures
        forall|child: FragmentView| #[trigger]
            crate::storage::children_of(g, victim).contains(child) ==> has_child_edge(
                after.edges,
                survivor,
                child.id,
            ),
        after.fragments.len() == g.fragments.len(),
        after.fragments[i] == (FragmentView { superseded_by: Some(survivor), ..g.fragments[i] }),
{
    let children = crate::storage::children_of(g, victim);
    let (middle, moved) = choose|middle: StorageView, moved: Result<(), StorageError>|
        {
            &&& #[trigger] children_moved(g, children, victim, survivor, middle, moved)
            &&& match moved {
                Ok(_) => exists|stamp: Stamp| #[trigger]
                    crate::changes::is_drawn(stamp) && ({
                        let o = crate::changes::superseding(middle, victim, survivor, stamp);
                        after == o.graph && Ok::<(), StorageError>(()) == o.result
                    }),
                Err(e) => after == middle && Ok::<(), StorageError>(()) == Err::<(), StorageError>(
                    e,
                ),
            }
        };
    let stamp = choose|stamp: Stamp| #[trigger]
        crate::changes::is_drawn(stamp) && ({
            let o = crate::changes::superseding(middle, victim, survivor, stamp);
            after == o.graph && Ok::<(), StorageError>(()) == o.result
        });
    let stamps = choose|stamps: Seq<Stamp>|
        {
            let o = #[trigger] reparenting_all(
                g,
                children.take(stamps.len() as int),
                victim,
                survivor,
                stamps,
            );
            &&& stamps.len() <= children.len()
            &&& moved is Ok ==> stamps.len() == children.len()
            &&& middle == o.graph
            &&& moved == o.result
        };
    assert(children.take(stamps.len() as int) == children);
    lemma_moving_keeps_fragments(g, children, victim, survivor, stamps);
    let e = crate::changes::stamped_edge(
        survivor,
        victim,
        EdgeKind::Supersedes,
        ONE,
        None,
        stamp,
    );
    assert(after.edges == middle.edges.push(e));
    assert forall|child: FragmentView| #[trigger] children.contains(child) implies has_child_edge(
        after.edges,
        survivor,
        child.id,
    ) by {
        let j = choose|j: int| 0 <= j < children.len() && children[j] == child;
        lemma_children_arrive(g, children, victim, survivor, stamps, j);
        let k = choose|k: int|
            0 <= k < middle.edges.len() && is_child_edge(
                #[trigger] middle.edges[k],
                survivor,
                child.id,
            );
        assert(is_child_edge(after.edges[k], survivor, child.id));
    }
}

/// Two fragments hold the same knowledge, at the same depth.
pub open spec fn same_knowledge(a: FragmentView, b: FragmentView) -> bool {
    &&& a.id == b.id
    &&& a.content == b.content
    &&& a.summary == b.summary
    &&& a.depth == b.depth
    &&& a.embedding == b.embedding
    &&& a.created_at == b.created_at
}

/// Two lists hold the same knowledge, item by item.
pub open spec fn keeps_knowledge(before: Seq<FragmentView>, after: Seq<FragmentView>) -> bool {
    &&& before.len() == after.len()
    &&& forall|i: int| 0 <= i < before.len() ==> same_knowledge(before[i], #[trigger] after[i])
}

/// Merging roots changes no knowledge.
proof fn lemma_merging_keeps_knowledge(
    g: StorageView,
    pairs: Seq<Pair>,
    merge_threshold: i64,
    after: StorageView,
    count: nat,
)
    requires
        pairs_merged(g, pairs, merge_threshold, after, count),
    ensures
        keeps_knowledge(g.fragments, after.fragments),
    decreases pairs.len(),
{
    if pairs.len() > 0 {
        let (middle, done) = choose|middle: StorageView, done: bool| #[trigger]
            pair_merged(middle, pairs.last(), merge_threshold, after, Ok(done)) && pairs_merged(
                g,
                pairs.drop_last(),
                merge_threshold,
                middle,
                if done {
                    (count - 1) as nat
                } else {
                    count
                },
            ) && (done ==> count > 0);
        lemma_merging_keeps_knowledge(
            g,
            pairs.drop_last(),
            merge_threshold,
            middle,
            if done {
                (count - 1) as nat
            } else {
                count
            },
        );
        if done {
            let sv = survivor_and_victim(middle, pairs.last())->0;
            lemma_merged_pair_keeps_knowledge(middle, sv.0, sv.1, after);
        }
        assert forall|i: int| 0 <= i < g.fragments.len() implies same_knowledge(
            g.fragments[i],
            #[trigger] after.fragments[i],
        ) by {
            assert(same_knowledge(g.fragments[i], middle.fragments[i]));
        }
    }
}

/// Merging a root into another one changes no knowledge.
proof fn lemma_merged_pair_keeps_knowledge(
    g: StorageView,
    survivor: FragmentId,
    victim: FragmentId,
    after: StorageView,
)
    requires
        victim_merged(g, survivor, victim, after, Ok(())),
    ensures
        keeps_knowledge(g.fragments, after.fragments),
{
    let children = crate::storage::children_of(g, victim);
    let (middle, moved) = choose|middle: StorageView, moved: Result<(), StorageError>|
        {
            &&& #[trigger] children_moved(g, children, victim, survivor, middle, moved)
            &&& match moved {
                Ok(_) => exists|stamp: Stamp| #[trigger]
                    crate::changes::is_drawn(stamp) && ({
                        let o = crate::changes::superseding(middle, victim, survivor, stamp);
                        after == o.graph && Ok::<(), StorageError>(()) == o.result
                    }),
                Err(e) => after == middle && Ok::<(), StorageError>(()) == Err::<(), StorageError>(
                    e,
                ),
            }
        };
    let stamps = choose|stamps: Seq<Stamp>|
        middle == (#[trigger] reparenting_all(
            g,
            children.take(stamps.len() as int),
            victim,
            survivor,
            stamps,
        )).graph;
    lemma_moving_keeps_fragments(
        g,
        children.take(stamps.len() as int),
        victim,
        survivor,
        stamps,
    );
}

/// Making links changes no fragment.
proof fn lemma_linking_keeps_fragments(g: StorageView, plan: Seq<Pair>, stamps: Seq<Stamp>)
    ensures
        linking_all(g, plan, stamps).graph.fragments == g.fragments,
    decreases plan.len(),
{
    if plan.len() > 0 && stamps.len() > 0 {
        lemma_linking_keeps_fragments(g, plan.drop_last(), stamps.drop_last());
    }
}

/// The first part of a cycle changes no knowledge.
proof fn lemma_settling_keeps_knowledge(
    g: StorageView,
    before: ConsolidationStats,
    similarity_threshold: i64,
    merge_threshold: i64,
    now: i64,
    after: StorageView,
    stats: ConsolidationStats,
)
    requires
        settled(g, before, similarity_threshold, merge_threshold, now, after, stats),
    ensures
        keeps_knowledge(g.fragments, after.fragments),
{
    let faded = after_fading(g, now);
    let pairs = similar_roots(faded, similarity_threshold);
    let merged = stats.roots_merged as nat;
    let middle = choose|middle: StorageView|
        {
            let again = pairs_to_link(middle, pairs, merged, similarity_threshold);
            &&& #[trigger] pairs_merged(faded, pairs, merge_threshold, middle, merged)
            &&& links_made(
                middle,
                planned_links(middle, again, again.len() as int),
                after,
                Ok(stats.links_created),
            )
        };
    let again = pairs_to_link(middle, pairs, merged, similarity_threshold);
    let plan = planned_links(middle, again, again.len() as int);
    let stamps = choose|stamps: Seq<Stamp>|
        after == (#[trigger] linking_all(middle, plan.take(stamps.len() as int), stamps)).graph;
    lemma_linking_keeps_fragments(middle, plan.take(stamps.len() as int), stamps);
    lemma_merging_keeps_knowledge(faded, pairs, merge_threshold, middle, merged);
    assert forall|i: int| 0 <= i < g.fragments.len() implies same_knowledge(
        g.fragments[i],
        #[trigger] after.fragments[i],
    ) by {
        assert(same_knowledge(g.fragments[i], faded.fragments[i]));
        assert(same_knowledge(faded.fragments[i], middle.fragments[i]));
    }
}

/// No root is lost in a cycle: each is still in the memory, with its knowledge,
/// even where it was merged into another one.
pub proof fn law_cycle_keeps_roots(
    g: StorageView,
    similarity_threshold: i64,
    merge_threshold: i64,
    now: i64,
    after: StorageView,
    stats: ConsolidationStats,
    i: int,
)
    requires
        crate::storage::is_sound(g),
        cycled(g, similarity_threshold, merge_threshold, now, after, stats),
        0 <= i < g.fragments.len(),
        g.fragments[i].depth == 0,
    ensures
        exists|k: int|
            0 <= k < after.fragments.len() && same_knowledge(
                g.fragments[i],
                #[trigger] after.fragments[k],
            ),
{
    let (middle, half) = choose|middle: StorageView, half: ConsolidationStats|
        {
            &&& #[trigger] settled(
                g,
                no_counts(),
                similarity_threshold,
                merge_threshold,
                now,
                middle,
                half,
            )
            &&& stats == counts_after_forgetting(middle, half, stats.fragments_pruned)
            &&& forgetting(edges_after_cycle(middle), now, after, Ok(stats.fragments_pruned))
        };
    lemma_settling_keeps_knowledge(
        g,
        no_counts(),
        similarity_threshold,
        merge_threshold,
        now,
        middle,
        half,
    );
    let light = edges_after_cycle(middle);
    assert(light.fragments == middle.fragments);
    assert(crate::storage::unique_fragments(light.fragments)) by {
        let fs = light.fragments;
        assert forall|a: int, b: int| 0 <= a < b < fs.len() implies (#[trigger] fs[a]).id != (
        #[trigger] fs[b]).id by {
            assert(same_knowledge(g.fragments[a], fs[a]));
            assert(same_knowledge(g.fragments[b], fs[b]));
            assert(g.fragments[a].id != g.fragments[b].id);
        }
    }
    let f = light.fragments[i];
    assert(same_knowledge(g.fragments[i], f));
    assert(light.fragments.contains(f));
    law_roots_are_kept(light, now, after, Ok(stats.fragments_pruned), f);
    let k = choose|k: int| 0 <= k < after.fragments.len() && alike(f, #[trigger] after.fragments[k]);
    assert(same_knowledge(g.fragments[i], after.fragments[k]));
}

/// A cycle leaves every edge that is not associative as it was.
pub proof fn law_cycle_keeps_other_edges(g: StorageView, i: int)
    requires
        0 <= i < g.edges.len(),
        g.edges[i].kind != EdgeKind::Associative,
    ensures
        edges_after_cycle(g).edges.contains(g.edges[i]),
{
    let light = crate::storage::decayed(g.edges, EdgeKind::Associative, EDGE_DECAY);
    let keep = crate::storage::not_weak(EdgeKind::Associative, MIN_EDGE_WEIGHT);
    crate::lists::lemma_filter_members(light, keep);
    assert(light[i] == g.edges[i]);
    assert(keep(light[i]));
}

/// A cycle never adds weight to an edge whose weight is not negative.
pub proof fn law_cycle_weakens_edges(weight: i64)
    requires
        weight >= 0,
    ensures
        0 <= crate::fixed::product(weight as int, EDGE_DECAY as int) <= weight,
{
    crate::fixed::lemma_product_shrinks(weight as int, EDGE_DECAY as int);
}

// ---- what is found to be similar ----

/// The pairs of one fragment with others: one for each that is similar to it.
proof fn lemma_similar_to(f: FragmentView, others: Seq<FragmentView>, n: int, threshold: i64)
    requires
        0 <= n <= others.len(),
    ensures
        forall|j: int|
            0 <= j < n && f.embedding.len() > 0 && (#[trigger] others[j]).embedding.len() > 0
                && crate::embedding::similarity(f.embedding, others[j].embedding) > threshold
                ==> similar_to(f, others, n, threshold).contains(pair_of(f, others[j])),
        forall|p: Pair| #[trigger]
            similar_to(f, others, n, threshold).contains(p) ==> exists|j: int|
                #![trigger others[j]]
                0 <= j < n && p == pair_of(f, others[j]) && f.embedding.len() > 0
                    && others[j].embedding.len() > 0 && crate::embedding::similarity(
                    f.embedding,
                    others[j].embedding,
                ) > threshold,
        crate::storage::unique_fragments(others) ==> similar_to(
            f,
            others,
            n,
            threshold,
        ).no_duplicates(),
    decreases n,
{
    if n > 0 {
        lemma_similar_to(f, others, n - 1, threshold);
        let rest = similar_to(f, others, n - 1, threshold);
        let all = similar_to(f, others, n, threshold);
        let new = pair_of(f, others[n - 1]);
        assert forall|j: int|
            0 <= j < n && f.embedding.len() > 0 && (#[trigger] others[j]).embedding.len() > 0
                && crate::embedding::similarity(f.embedding, others[j].embedding)
                > threshold implies all.contains(pair_of(f, others[j])) by {
            if j < n - 1 {
                assert(rest.contains(pair_of(f, others[j])));
                let k = choose|k: int| 0 <= k < rest.len() && rest[k] == pair_of(f, others[j]);
                assert(all[k] == rest[k]);
            } else {
                assert(all[rest.len() as int] == new);
            }
        }
        assert forall|p: Pair| #[trigger] all.contains(p) implies exists|j: int|
            #![trigger others[j]]
            0 <= j < n && p == pair_of(f, others[j]) && f.embedding.len() > 0
                && others[j].embedding.len() > 0 && crate::embedding::similarity(
                f.embedding,
                others[j].embedding,
            ) > threshold by {
            let k = choose|k: int| 0 <= k < all.len() && all[k] == p;
            if k < rest.len() {
                assert(rest[k] == p);
                assert(rest.contains(p));
            } else {
                assert(p == pair_of(f, others[n - 1]));
            }
        }
        if crate::storage::unique_fragments(others) {
            assert forall|a: int, b: int|
                0 <= a < all.len() && 0 <= b < all.len() && a != b implies all[a] != all[b] by {
                if a < rest.len() && b < rest.len() {
                    assert(rest[a] != rest[b]);
                } else {
                    let c = if a < rest.len() {
                        a
                    } else {
                        b
                    };
                    assert(rest.contains(rest[c]));
                    let j = choose|j: int|
                        #![trigger others[j]]
                        0 <= j < n - 1 && rest[c] == pair_of(f, others[j]);
                    assert(others[j].id != others[n - 1].id);
                }
            }
        }
    }
}

/// The pairs within a list: one for each two of its fragments that are similar.
#[verifier::rlimit(50)]
proof fn lemma_similar_within(fs: Seq<FragmentView>, n: int, threshold: i64)
    requires
        0 <= n <= fs.len(),
    ensures
        forall|i: int, j: int|
            #![trigger fs[i], fs[j]]
            0 <= i < n && i < j < fs.len() && fs[i].embedding.len() > 0 && fs[j].embedding.len() > 0
                && crate::embedding::similarity(fs[i].embedding, fs[j].embedding) > threshold
                ==> similar_within(fs, n, threshold).contains(pair_of(fs[i], fs[j])),
        forall|p: Pair| #[trigger]
            similar_within(fs, n, threshold).contains(p) ==> exists|i: int, j: int|
                #![trigger fs[i], fs[j]]
                0 <= i < n && i < j < fs.len() && p == pair_of(fs[i], fs[j])
                    && fs[i].embedding.len() > 0 && fs[j].embedding.len() > 0
                    && crate::embedding::similarity(fs[i].embedding, fs[j].embedding) > threshold,
        crate::storage::unique_fragments(fs) ==> similar_within(fs, n, threshold).no_duplicates(),
    decreases n,
{
    if n > 0 {
        lemma_similar_within(fs, n - 1, threshold);
        let rest = fs.skip(n);
        let f = fs[n - 1];
        lemma_similar_to(f, rest, rest.len() as int, threshold);
        let front = similar_within(fs, n - 1, threshold);
        let row = similar_to(f, rest, rest.len() as int, threshold);
        let all = similar_within(fs, n, threshold);
        assert(all == front + row);
        assert forall|i: int, j: int|
            #![trigger fs[i], fs[j]]
            0 <= i < n && i < j < fs.len() && fs[i].embedding.len() > 0 && fs[j].embedding.len() > 0
                && crate::embedding::similarity(fs[i].embedding, fs[j].embedding)
                > threshold implies all.contains(pair_of(fs[i], fs[j])) by {
            let p = pair_of(fs[i], fs[j]);
            if i < n - 1 {
                assert(front.contains(p));
                let k = choose|k: int| 0 <= k < front.len() && front[k] == p;
                assert(all[k] == p);
            } else {
                assert(rest[j - n] == fs[j]);
                assert(row.contains(p));
                let k = choose|k: int| 0 <= k < row.len() && row[k] == p;
                assert(all[front.len() + k] == p);
            }
        }
        assert forall|p: Pair| #[trigger] all.contains(p) implies exists|i: int, j: int|
            #![trigger fs[i], fs[j]]
            0 <= i < n && i < j < fs.len() && p == pair_of(fs[i], fs[j]) && fs[i].embedding.len()
                > 0 && fs[j].embedding.len() > 0 && crate::embedding::similarity(
                fs[i].embedding,
                fs[j].embedding,
            ) > threshold by {
            let k = choose|k: int| 0 <= k < all.len() && all[k] == p;
            if k < front.len() {
                assert(front[k] == p);
                assert(front.contains(p));
            } else {
                assert(row[k - front.len()] == p);
                assert(row.contains(p));
                let j = choose|j: int|
                    #![trigger rest[j]]
                    0 <= j < rest.len() && p == pair_of(f, rest[j]) && f.embedding.len() > 0
                        && rest[j].embedding.len() > 0 && crate::embedding::similarity(
                        f.embedding,
                        rest[j].embedding,
                    ) > threshold;
                assert(rest[j] == fs[n + j]);
                assert(p == pair_of(fs[n - 1], fs[n + j]));
            }
        }
        if crate::storage::unique_fragments(fs) {
            assert(crate::storage::unique_fragments(rest)) by {
                assert forall|a: int, b: int| 0 <= a < b < rest.len() implies (
                #[trigger] rest[a]).id != (#[trigger] rest[b]).id by {
                    assert(fs[n + a].id != fs[n + b].id);
                }
            }
            assert forall|a: int, b: int|
                0 <= a < all.len() && 0 <= b < all.len() && a != b implies all[a] != all[b] by {
                if a < front.len() && b < front.len() {
                    assert(front[a] != front[b]);
                } else if a >= front.len() && b >= front.len() {
                    assert(row[a - front.len()] != row[b - front.len()]);
                } else {
                    let (c, d) = if a < front.len() {
                        (a, b - front.len())
                    } else {
                        (b, a - front.len())
                    };
                    assert(front.contains(front[c]));
                    assert(row.contains(row[d]));
                    let (i, j) = choose|i: int, j: int|
                        #![trigger fs[i], fs[j]]
                        0 <= i < n - 1 && i < j < fs.len() && front[c] == pair_of(fs[i], fs[j]);
                    let m = choose|m: int|
                        #![trigger rest[m]]
                        0 <= m < rest.len() && row[d] == pair_of(f, rest[m]);
                    assert(fs[i].id != fs[n - 1].id);
                }
            }
        }
    }
}

/// Similar roots are found: there is a pair for each two active roots that have
/// embeddings and are more similar than the threshold, with the more relevant one
/// first, and there is no other pair and none twice.
pub proof fn law_similar_roots_are_found(g: StorageView, threshold: i64)
    requires
        crate::storage::unique_fragments(g.fragments),
    ensures
        ({
            let roots = crate::query::roots_of(g);
            let pairs = similar_roots(g, threshold);
            &&& pairs.no_duplicates()
            &&& forall|i: int, j: int|
                #![trigger roots[i], roots[j]]
                0 <= i < j < roots.len() && roots[i].embedding.len() > 0 && roots[j].embedding.len()
                    > 0 && crate::embedding::similarity(roots[i].embedding, roots[j].embedding)
                    > threshold ==> pairs.contains(
                    Pair {
                        a: roots[i].id,
                        b: roots[j].id,
                        similarity: crate::embedding::similarity(
                            roots[i].embedding,
                            roots[j].embedding,
                        ) as i64,
                    },
                )
            &&& forall|p: Pair| #[trigger]
                pairs.contains(p) ==> exists|i: int, j: int|
                    #![trigger roots[i], roots[j]]
                    0 <= i < j < roots.len() && p.a == roots[i].id && p.b == roots[j].id
                        && roots[i].embedding.len() > 0 && roots[j].embedding.len() > 0
                        && p.similarity == crate::embedding::similarity(
                        roots[i].embedding,
                        roots[j].embedding,
                    ) && p.similarity > threshold
        }),
{
    let roots = crate::query::roots_of(g);
    let pairs = similar_roots(g, threshold);
    crate::query::law_roots(g);
    lemma_similar_within(roots, roots.len() as int, threshold);
    assert forall|p: Pair| #[trigger] pairs.contains(p) implies exists|i: int, j: int|
        #![trigger roots[i], roots[j]]
        0 <= i < j < roots.len() && p.a == roots[i].id && p.b == roots[j].id
            && roots[i].embedding.len() > 0 && roots[j].embedding.len() > 0 && p.similarity
            == crate::embedding::similarity(roots[i].embedding, roots[j].embedding) && p.similarity
            > threshold by {
        let (i, j) = choose|i: int, j: int|
            #![trigger roots[i], roots[j]]
            0 <= i < roots.len() && i < j < roots.len() && p == pair_of(roots[i], roots[j])
                && roots[i].embedding.len() > 0 && roots[j].embedding.len() > 0
                && crate::embedding::similarity(roots[i].embedding, roots[j].embedding) > threshold;
        crate::embedding::law_similarity_range(roots[i].embedding, roots[j].embedding);
        assert(p.a == roots[i].id && p.b == roots[j].id);
    }
}

/// No two near-duplicates escape: whichever two active roots are more similar than
/// the threshold, they are paired, in the one order or the other.
pub proof fn law_no_duplicates_escape(g: StorageView, threshold: i64, a: FragmentView, b: FragmentView)
    requires
        crate::storage::unique_fragments(g.fragments),
        g.fragments.contains(a),
        g.fragments.contains(b),
        a.id != b.id,
        a.depth == 0 && a.superseded_by is None && a.embedding.len() > 0,
        b.depth == 0 && b.superseded_by is None && b.embedding.len() > 0,
        crate::embedding::similarity(a.embedding, b.embedding) > threshold,
    ensures
        ({
            let s = crate::embedding::similarity(a.embedding, b.embedding) as i64;
            similar_roots(g, threshold).contains(Pair { a: a.id, b: b.id, similarity: s })
                || similar_roots(g, threshold).contains(Pair { a: b.id, b: a.id, similarity: s })
        }),
{
    let roots = crate::query::roots_of(g);
    crate::query::law_roots(g);
    law_similar_roots_are_found(g, threshold);
    crate::embedding::law_similarity_symmetric(a.embedding, b.embedding);
    assert(roots.contains(a) && roots.contains(b));
    let i = choose|i: int| 0 <= i < roots.len() && roots[i] == a;
    let j = choose|j: int| 0 <= j < roots.len() && roots[j] == b;
    assert(roots[i] == a && roots[j] == b);
}

/// What is planned to be linked: of each pair of roots, the children of the one with
/// the children of the other, where both have embeddings and their similarity is above
/// 0.7; nothing else.
proof fn lemma_similar_across(
    fs: Seq<FragmentView>,
    others: Seq<FragmentView>,
    n: int,
    threshold: i64,
)
    requires
        0 <= n <= fs.len(),
    ensures
        forall|i: int, j: int|
            #![trigger fs[i], others[j]]
            0 <= i < n && 0 <= j < others.len() && fs[i].embedding.len() > 0
                && others[j].embedding.len() > 0 && crate::embedding::similarity(
                fs[i].embedding,
                others[j].embedding,
            ) > threshold ==> similar_across(fs, others, n, threshold).contains(
                pair_of(fs[i], others[j]),
            ),
        forall|p: Pair| #[trigger]
            similar_across(fs, others, n, threshold).contains(p) ==> exists|i: int, j: int|
                #![trigger fs[i], others[j]]
                0 <= i < n && 0 <= j < others.len() && p == pair_of(fs[i], others[j])
                    && fs[i].embedding.len() > 0 && others[j].embedding.len() > 0
                    && crate::embedding::similarity(fs[i].embedding, others[j].embedding)
                    > threshold,
    decreases n,
{
    if n > 0 {
        lemma_similar_across(fs, others, n - 1, threshold);
        let f = fs[n - 1];
        lemma_similar_to(f, others, others.len() as int, threshold);
        let front = similar_across(fs, others, n - 1, threshold);
        let row = similar_to(f, others, others.len() as int, threshold);
        let all = similar_across(fs, others, n, threshold);
        assert(all == front + row);
        assert forall|i: int, j: int|
            #![trigger fs[i], others[j]]
            0 <= i < n && 0 <= j < others.len() && fs[i].embedding.len() > 0
                && others[j].embedding.len() > 0 && crate::embedding::similarity(
                fs[i].embedding,
                others[j].embedding,
            ) > threshold implies all.contains(pair_of(fs[i], others[j])) by {
            let p = pair_of(fs[i], others[j]);
            if i < n - 1 {
                assert(front.contains(p));
                let k = choose|k: int| 0 <= k < front.len() && front[k] == p;
                assert(all[k] == p);
            } else {
                assert(row.contains(p));
                let k = choose|k: int| 0 <= k < row.len() && row[k] == p;
                assert(all[front.len() + k] == p);
            }
        }
        assert forall|p: Pair| #[trigger] all.contains(p) implies exists|i: int, j: int|
            #![trigger fs[i], others[j]]
            0 <= i < n && 0 <= j < others.len() && p == pair_of(fs[i], others[j])
                && fs[i].embedding.len() > 0 && others[j].embedding.len() > 0
                && crate::embedding::similarity(fs[i].embedding, others[j].embedding)
                > threshold by {
            let k = choose|k: int| 0 <= k < all.len() && all[k] == p;
            if k < front.len() {
                assert(front[k] == p);
                assert(front.contains(p));
            } else {
                assert(row[k - front.len()] == p);
                assert(row.contains(p));
                let j = choose|j: int|
                    #![trigger others[j]]
                    0 <= j < others.len() && p == pair_of(f, others[j]) && f.embedding.len() > 0
                        && others[j].embedding.len() > 0 && crate::embedding::similarity(
                        f.embedding,
                        others[j].embedding,
                    ) > threshold;
                assert(p == pair_of(fs[n - 1], others[j]));
            }
        }
    }
}

proof fn lemma_planned(g: StorageView, pairs: Seq<Pair>, n: int, k: int, p: Pair)
    requires
        0 <= k < n <= pairs.len(),
        ({
            let a = crate::storage::children_of(g, pairs[k].a);
            let b = crate::storage::children_of(g, pairs[k].b);
            similar_across(a, b, a.len() as int, CROSS_THRESHOLD).contains(p)
        }),
    ensures
        planned_links(g, pairs, n).contains(p),
    decreases n,
{
    let a = crate::storage::children_of(g, pairs[n - 1].a);
    let b = crate::storage::children_of(g, pairs[n - 1].b);
    let front = planned_links(g, pairs, n - 1);
    let row = similar_across(a, b, a.len() as int, CROSS_THRESHOLD);
    let all = planned_links(g, pairs, n);
    if k < n - 1 {
        lemma_planned(g, pairs, n - 1, k, p);
        let i = choose|i: int| 0 <= i < front.len() && front[i] == p;
        assert(all[i] == p);
    } else {
        let i = choose|i: int| 0 <= i < row.len() && row[i] == p;
        assert(all[front.len() + i] == p);
    }
}

proof fn lemma_planned_from(g: StorageView, pairs: Seq<Pair>, n: int, p: Pair) -> (k: int)
    requires
        0 <= n <= pairs.len(),
        planned_links(g, pairs, n).contains(p),
    ensures
        0 <= k < n,
        ({
            let a = crate::storage::children_of(g, pairs[k].a);
            let b = crate::storage::children_of(g, pairs[k].b);
            similar_across(a, b, a.len() as int, CROSS_THRESHOLD).contains(p)
        }),
    decreases n,
{
    let a = crate::storage::children_of(g, pairs[n - 1].a);
    let b = crate::storage::children_of(g, pairs[n - 1].b);
    let front = planned_links(g, pairs, n - 1);
    let row = similar_across(a, b, a.len() as int, CROSS_THRESHOLD);
    let all = planned_links(g, pairs, n);
    let i = choose|i: int| 0 <= i < all.len() && all[i] == p;
    if i < front.len() {
        assert(front[i] == p);
        lemma_planned_from(g, pairs, n - 1, p)
    } else {
        assert(row[i - front.len()] == p);
        n - 1
    }
}

/// Related children are linked: whichever children of two similar roots have embeddings
/// whose similarity is above 0.7, a link between them with that weight is planned.
pub proof fn law_related_children_are_linked(
    g: StorageView,
    pairs: Seq<Pair>,
    k: int,
    a: FragmentView,
    b: FragmentView,
)
    requires
        0 <= k < pairs.len(),
        crate::storage::children_of(g, pairs[k].a).contains(a),
        crate::storage::children_of(g, pairs[k].b).contains(b),
        a.embedding.len() > 0,
        b.embedding.len() > 0,
        crate::embedding::similarity(a.embedding, b.embedding) > 700_000_000,
    ensures
        planned_links(g, pairs, pairs.len() as int).contains(
            Pair {
                a: a.id,
                b: b.id,
                similarity: crate::embedding::similarity(a.embedding, b.embedding) as i64,
            },
        ),
{
    let fa = crate::storage::children_of(g, pairs[k].a);
    let fb = crate::storage::children_of(g, pairs[k].b);
    lemma_similar_across(fa, fb, fa.len() as int, CROSS_THRESHOLD);
    let i = choose|i: int| 0 <= i < fa.len() && fa[i] == a;
    let j = choose|j: int| 0 <= j < fb.len() && fb[j] == b;
    assert(fa[i] == a && fb[j] == b);
    lemma_planned(g, pairs, pairs.len() as int, k, pair_of(a, b));
}

/// Nothing but related children of similar roots is linked.
pub proof fn law_only_related_children_are_linked(g: StorageView, pairs: Seq<Pair>, p: Pair)
    requires
        planned_links(g, pairs, pairs.len() as int).contains(p),
    ensures
        exists|k: int, a: FragmentView, b: FragmentView|
            #![trigger pairs[k], pair_of(a, b)]
            {
                &&& 0 <= k < pairs.len()
                &&& crate::storage::children_of(g, pairs[k].a).contains(a)
                &&& crate::storage::children_of(g, pairs[k].b).contains(b)
                &&& p.a == a.id && p.b == b.id
                &&& p.similarity == crate::embedding::similarity(a.embedding, b.embedding)
                &&& p.similarity > 700_000_000
            },
{
    let k = lemma_planned_from(g, pairs, pairs.len() as int, p);
    let fa = crate::storage::children_of(g, pairs[k].a);
    let fb = crate::storage::children_of(g, pairs[k].b);
    lemma_similar_across(fa, fb, fa.len() as int, CROSS_THRESHOLD);
    let (i, j) = choose|i: int, j: int|
        #![trigger fa[i], fb[j]]
        0 <= i < fa.len() && 0 <= j < fb.len() && p == pair_of(fa[i], fb[j])
            && crate::embedding::similarity(fa[i].embedding, fb[j].embedding) > CROSS_THRESHOLD;
    crate::embedding::law_similarity_range(fa[i].embedding, fb[j].embedding);
    assert(p == pair_of(fa[i], fb[j]));
    assert(pairs[k] == pairs[k]);
}

proof fn lemma_linked_all(g: StorageView, plan: Seq<Pair>, stamps: Seq<Stamp>)
    requires
        stamps.len() == plan.len(),
        linking_all(g, plan, stamps).result is Ok,
    ensures
        ({
            let after = linking_all(g, plan, stamps).graph;
            &&& after.edges.len() == g.edges.len() + plan.len()
            &&& forall|i: int|
                0 <= i < g.edges.len() ==> after.edges[i] == #[trigger] g.edges[i]
            &&& forall|k: int|
                0 <= k < plan.len() ==> is_link_of(after.edges[g.edges.len() + k], #[trigger] plan[k])
        }),
    decreases plan.len(),
{
    if plan.len() > 0 {
        let n = plan.len() - 1;
        lemma_linked_all(g, plan.drop_last(), stamps.drop_last());
        let before = linking_all(g, plan.drop_last(), stamps.drop_last()).graph;
        let after = linking_all(g, plan, stamps).graph;
        assert(after.edges.len() == before.edges.len() + 1);
        assert forall|i: int| 0 <= i < g.edges.len() implies after.edges[i]
            == #[trigger] g.edges[i] by {
            assert(before.edges[i] == g.edges[i]);
        }
        assert forall|k: int| 0 <= k < plan.len() implies is_link_of(
            after.edges[g.edges.len() + k],
            #[trigger] plan[k],
        ) by {
            if k < n {
                assert(plan.drop_last()[k] == plan[k]);
                assert(after.edges[g.edges.len() + k] == before.edges[g.edges.len() + k]);
            }
        }
    }
}

/// An associative edge from one fragment of a pair to the other, with its similarity for
/// a weight.
pub open spec fn is_link_of(e: EdgeView, p: Pair) -> bool {
    e.kind == EdgeKind::Associative && e.source == p.a && e.target == p.b && e.weight
        == p.similarity
}

/// All links that are planned are made and counted, and nothing else is changed.
pub proof fn law_planned_links_are_made(
    g: StorageView,
    plan: Seq<Pair>,
    after: StorageView,
    n: usize,
)
    requires
        links_made(g, plan, after, Ok(n)),
    ensures
        n == plan.len(),
        after.fragments == g.fragments,
        after.edges.len() == g.edges.len() + n,
        forall|i: int| 0 <= i < g.edges.len() ==> after.edges[i] == #[trigger] g.edges[i],
        forall|k: int|
            0 <= k < plan.len() ==> is_link_of(after.edges[g.edges.len() + k], #[trigger] plan[k]),
{
    let stamps = choose|stamps: Seq<Stamp>|
        {
            let o = #[trigger] linking_all(g, plan.take(stamps.len() as int), stamps);
            &&& stamps.len() <= plan.len()
            &&& after == o.graph
            &&& o.result is Ok && n == plan.len() && stamps.len() == plan.len()
        };
    assert(plan.take(stamps.len() as int) == plan);
    lemma_linked_all(g, plan, stamps);
    lemma_linking_keeps_fragments(g, plan, stamps);
}

// ---- who gives way ----

/// Of two active roots the one that was accessed more often survives, and the first one
/// where both were accessed equally often. Where one of them is superseded, neither gives
/// way.
pub proof fn law_the_used_one_survives(g: StorageView, pair: Pair, i: int, j: int)
    requires
        crate::storage::unique_fragments(g.fragments),
        0 <= i < g.fragments.len(),
        0 <= j < g.fragments.len(),
        g.fragments[i].id == pair.a,
        g.fragments[j].id == pair.b,
    ensures
        ({
            let (a, b) = (g.fragments[i], g.fragments[j]);
            &&& a.superseded_by is None && b.superseded_by is None && a.access_count
                >= b.access_count ==> survivor_and_victim(g, pair) == Some((pair.a, pair.b))
            &&& a.superseded_by is None && b.superseded_by is None && a.access_count
                < b.access_count ==> survivor_and_victim(g, pair) == Some((pair.b, pair.a))
            &&& a.superseded_by is Some || b.superseded_by is Some ==> survivor_and_victim(g, pair)
                is None
        }),
{
    crate::storage::lemma_fragment_at(g.fragments, i);
    crate::storage::lemma_fragment_at(g.fragments, j);
}

/// What merging does to the fragments: at most it marks them as superseded.
spec fn only_marked(before: Seq<FragmentView>, after: Seq<FragmentView>) -> bool {
    &&& before.len() == after.len()
    &&& forall|i: int|
        0 <= i < before.len() ==> (#[trigger] after[i]) == (FragmentView {
            superseded_by: after[i].superseded_by,
            ..before[i]
        }) && (before[i].superseded_by is Some ==> after[i].superseded_by is Some)
}

proof fn lemma_victim_marked(
    g: StorageView,
    survivor: FragmentId,
    victim: FragmentId,
    after: StorageView,
)
    requires
        victim_merged(g, survivor, victim, after, Ok(())),
        crate::storage::has_fragment(g.fragments, survivor),
    ensures
        after.fragments.len() == g.fragments.len(),
        forall|i: int|
            0 <= i < g.fragments.len() ==> (#[trigger] after.fragments[i]) == if g.fragments[i].id
                == victim {
                FragmentView { superseded_by: Some(survivor), ..g.fragments[i] }
            } else {
                g.fragments[i]
            },
{
    let children = crate::storage::children_of(g, victim);
    let (middle, moved) = choose|middle: StorageView, moved: Result<(), StorageError>|
        {
            &&& #[trigger] children_moved(g, children, victim, survivor, middle, moved)
            &&& match moved {
                Ok(_) => exists|stamp: Stamp| #[trigger]
                    crate::changes::is_drawn(stamp) && ({
                        let o = crate::changes::superseding(middle, victim, survivor, stamp);
                        after == o.graph && Ok::<(), StorageError>(()) == o.result
                    }),
                Err(e) => after == middle && Ok::<(), StorageError>(()) == Err::<(), StorageError>(
                    e,
                ),
            }
        };
    let stamps = choose|stamps: Seq<Stamp>|
        middle == (#[trigger] reparenting_all(
            g,
            children.take(stamps.len() as int),
            victim,
            survivor,
            stamps,
        )).graph;
    lemma_moving_keeps_fragments(
        g,
        children.take(stamps.len() as int),
        victim,
        survivor,
        stamps,
    );
    assert(middle.fragments == g.fragments);
}

proof fn lemma_pair_marked(
    g: StorageView,
    pair: Pair,
    merge_threshold: i64,
    after: StorageView,
    done: bool,
)
    requires
        crate::storage::unique_fragments(g.fragments),
        pair_merged(g, pair, merge_threshold, after, Ok(done)),
    ensures
        only_marked(g.fragments, after.fragments),
        crate::storage::unique_fragments(after.fragments),
        !done ==> after == g,
        done ==> pair.similarity > merge_threshold,
        g.fragments.filter(crate::storage::active()).len() == after.fragments.filter(
            crate::storage::active(),
        ).len() + if done {
            1nat
        } else {
            0
        },
        forall|i: int, j: int|
            #![trigger g.fragments[i], g.fragments[j]]
            pair.similarity > merge_threshold && 0 <= i < g.fragments.len() && 0 <= j
                < g.fragments.len() && g.fragments[i].id == pair.a && g.fragments[j].id == pair.b
                ==> after.fragments[i].superseded_by is Some || after.fragments[j].superseded_by
                is Some,
{
    if let Some(sv) = survivor_and_victim(g, pair) {
        if pair.similarity > merge_threshold {
            lemma_victim_marked(g, sv.0, sv.1, after);
            let k = choose|k: int|
                0 <= k < g.fragments.len() && (#[trigger] g.fragments[k]).id == sv.1;
            crate::storage::lemma_fragment_at(g.fragments, k);
            assert forall|i: int, j: int|
                0 <= i < j < after.fragments.len() implies (#[trigger] after.fragments[i]).id != (
            #[trigger] after.fragments[j]).id by {
                assert(g.fragments[i].id != g.fragments[j].id);
            }
            assert forall|i: int| 0 <= i < g.fragments.len() && i != k implies (
            #[trigger] after.fragments[i]) == g.fragments[i] by {
                if i < k {
                    assert(g.fragments[i].id != g.fragments[k].id);
                } else {
                    assert(g.fragments[k].id != g.fragments[i].id);
                }
            }
            lemma_one_less(g.fragments, after.fragments, k);
        }
    }
    assert forall|i: int, j: int|
        #![trigger g.fragments[i], g.fragments[j]]
        pair.similarity > merge_threshold && 0 <= i < g.fragments.len() && 0 <= j
            < g.fragments.len() && g.fragments[i].id == pair.a && g.fragments[j].id
            == pair.b implies after.fragments[i].superseded_by is Some
        || after.fragments[j].superseded_by is Some by {
        crate::storage::lemma_fragment_at(g.fragments, i);
        crate::storage::lemma_fragment_at(g.fragments, j);
    }
}

/// Where one active fragment has been marked, there is one active fragment less.
proof fn lemma_one_less(fs: Seq<FragmentView>, us: Seq<FragmentView>, k: int)
    requires
        fs.len() == us.len(),
        0 <= k < fs.len(),
        forall|i: int| 0 <= i < fs.len() && i != k ==> (#[trigger] us[i]) == fs[i],
        fs[k].superseded_by is None,
        us[k].superseded_by is Some,
    ensures
        fs.filter(crate::storage::active()).len() == us.filter(crate::storage::active()).len() + 1,
    decreases fs.len(),
{
    reveal(Seq::filter);
    let (front, behind) = (fs.drop_last(), us.drop_last());
    if k < fs.len() - 1 {
        assert forall|i: int| 0 <= i < front.len() && i != k implies (#[trigger] behind[i])
            == front[i] by {
            assert(us[i] == fs[i]);
        }
        lemma_one_less(front, behind, k);
        assert(us[us.len() - 1] == fs[fs.len() - 1]);
    } else {
        assert forall|i: int| 0 <= i < front.len() implies (#[trigger] front[i]) == behind[i] by {
            assert(us[i] == fs[i]);
        }
        assert(front == behind);
    }
}

/// Merging leaves no two near-duplicates side by side: of each pair that is more similar
/// than the threshold, at most one root is still active. As many are counted as there are
/// active fragments less, and fragments lose nothing but their being active.
pub proof fn law_duplicates_are_merged(
    g: StorageView,
    pairs: Seq<Pair>,
    merge_threshold: i64,
    after: StorageView,
    count: nat,
)
    requires
        crate::storage::unique_fragments(g.fragments),
        pairs_merged(g, pairs, merge_threshold, after, count),
    ensures
        after.fragments.len() == g.fragments.len(),
        forall|i: int|
            0 <= i < g.fragments.len() ==> (#[trigger] after.fragments[i]) == (FragmentView {
                superseded_by: after.fragments[i].superseded_by,
                ..g.fragments[i]
            }) && (g.fragments[i].superseded_by is Some ==> after.fragments[i].superseded_by
                is Some),
        g.fragments.filter(crate::storage::active()).len() == after.fragments.filter(
            crate::storage::active(),
        ).len() + count,
        crate::storage::unique_fragments(after.fragments),
        forall|k: int, i: int, j: int|
            #![trigger pairs[k], g.fragments[i], g.fragments[j]]
            0 <= k < pairs.len() && pairs[k].similarity > merge_threshold && 0 <= i
                < g.fragments.len() && 0 <= j < g.fragments.len() && g.fragments[i].id == pairs[k].a
                && g.fragments[j].id == pairs[k].b ==> after.fragments[i].superseded_by is Some
                || after.fragments[j].superseded_by is Some,
        (forall|k: int| 0 <= k < pairs.len() ==> (#[trigger] pairs[k]).similarity <= merge_threshold)
            ==> after == g && count == 0,
    decreases pairs.len(),
{
    if pairs.len() > 0 {
        let (middle, done) = choose|middle: StorageView, done: bool| #[trigger]
            pair_merged(middle, pairs.last(), merge_threshold, after, Ok(done)) && pairs_merged(
                g,
                pairs.drop_last(),
                merge_threshold,
                middle,
                if done {
                    (count - 1) as nat
                } else {
                    count
                },
            ) && (done ==> count > 0);
        let less = if done {
            (count - 1) as nat
        } else {
            count
        };
        law_duplicates_are_merged(g, pairs.drop_last(), merge_threshold, middle, less);
        lemma_pair_marked(middle, pairs.last(), merge_threshold, after, done);
        assert forall|i: int| 0 <= i < g.fragments.len() implies (#[trigger] after.fragments[i])
            == (FragmentView { superseded_by: after.fragments[i].superseded_by, ..g.fragments[i] })
            && (g.fragments[i].superseded_by is Some ==> after.fragments[i].superseded_by
            is Some) by {
            assert(middle.fragments[i].id == g.fragments[i].id);
        }
        assert forall|k: int, i: int, j: int|
            #![trigger pairs[k], g.fragments[i], g.fragments[j]]
            0 <= k < pairs.len() && pairs[k].similarity > merge_threshold && 0 <= i
                < g.fragments.len() && 0 <= j < g.fragments.len() && g.fragments[i].id == pairs[k].a
                && g.fragments[j].id == pairs[k].b implies after.fragments[i].superseded_by is Some
            || after.fragments[j].superseded_by is Some by {
            assert(middle.fragments[i].id == g.fragments[i].id);
            assert(middle.fragments[j].id == g.fragments[j].id);
            assert(after.fragments[i].id == g.fragments[i].id);
            assert(after.fragments[j].id == g.fragments[j].id);
            if k < pairs.len() - 1 {
                assert(pairs.drop_last()[k] == pairs[k]);
                assert(middle.fragments[i].superseded_by is Some
                    || middle.fragments[j].superseded_by is Some);
            }
        }
        if forall|k: int| 0 <= k < pairs.len() ==> (#[trigger] pairs[k]).similarity
            <= merge_threshold {
            assert(pairs[pairs.len() - 1].similarity <= merge_threshold);
            assert forall|k: int| 0 <= k < pairs.drop_last().len() implies (
            #[trigger] pairs.drop_last()[k]).similarity <= merge_threshold by {
                assert(pairs[k].similarity <= merge_threshold);
            }
        }
    }
}

// ---- what fades and what is forgotten ----

/// In a cycle an associative edge loses a twentieth of its weight, rounded, and is gone
/// where less than 0.15 is left; every other edge is as it was.
pub proof fn law_edges_in_a_cycle(g: StorageView, i: int)
    requires
        0 <= i < g.edges.len(),
        g.edges[i].weight >= 0,
    ensures
        ({
            let e = g.edges[i];
            let after = edges_after_cycle(g).edges;
            let left = e.weight * 95 / 100;
            &&& e.kind != EdgeKind::Associative ==> after.contains(e)
            &&& e.kind == EdgeKind::Associative && left >= 150_000_000 ==> after.contains(
                EdgeView { weight: left as i64, ..e },
            )
            &&& e.kind == EdgeKind::Associative && left < 150_000_000 && crate::storage::unique_edges(
                g.edges,
            ) ==> !crate::storage::has_edge(after, e.id)
        }),
        edges_after_cycle(g).edges.len() <= g.edges.len(),
        edges_after_cycle(g).fragments == g.fragments,
{
    let e = g.edges[i];
    let light = crate::storage::decayed(g.edges, EdgeKind::Associative, EDGE_DECAY);
    let keep = crate::storage::not_weak(EdgeKind::Associative, MIN_EDGE_WEIGHT);
    let after = edges_after_cycle(g).edges;
    crate::lists::lemma_filter_members(light, keep);
    let w = e.weight as int;
    assert(w * 950_000_000 / 1_000_000_000 == w * 95 / 100) by {
        assert(w * 950_000_000 == (w * 95) * 10_000_000);
        assert((w * 95) * 10_000_000 / 1_000_000_000 == (w * 95) / 100);
    }
    assert(crate::fixed::product(w, EDGE_DECAY as int) == w * 95 / 100);
    if keep(light[i]) {
        assert(after.contains(light[i]));
    } else if crate::storage::unique_edges(g.edges) && crate::storage::has_edge(after, e.id) {
        let k = choose|k: int| 0 <= k < after.len() && (#[trigger] after[k]).id == e.id;
        assert(keep(after[k]) && light.contains(after[k]));
        let m = choose|m: int| 0 <= m < light.len() && light[m] == after[k];
        assert(g.edges[m].id == e.id);
        if m < i {
            assert(g.edges[m].id != g.edges[i].id);
        } else if i < m {
            assert(g.edges[i].id != g.edges[m].id);
        }
    }
}

/// Each fragment that is left was there before, and what was active is active still.
spec fn comes_from(before: Seq<FragmentView>, after: Seq<FragmentView>) -> bool {
    forall|k: int|
        0 <= k < after.len() ==> exists|m: int|
            #![trigger before[m]]
            0 <= m < before.len() && alike(before[m], #[trigger] after[k]) && (
            before[m].superseded_by is None ==> after[k].superseded_by is None)
}

proof fn lemma_forgotten_is_gone(g: StorageView, id: FragmentId, after: StorageView)
    requires
        fragment_forgotten(g, id, after, Ok(())),
    ensures
        !crate::storage::has_fragment(after.fragments, id),
        comes_from(g.fragments, after.fragments),
{
    let keep = crate::storage::other_than(id);
    let to = crate::storage::released(id, crate::storage::heir(g.fragments, id));
    let kept = g.fragments.filter(keep);
    let left = kept.map_values(to);
    crate::lists::lemma_filter_members(g.fragments, keep);
    let children = crate::storage::children_of(g, id);
    assert(after.fragments == left) by {
        if let Some(p) = crate::storage::parent_of(g, id) {
            let (middle, moved) = choose|middle: StorageView, moved: Result<(), StorageError>|
                {
                    &&& #[trigger] children_moved(g, children, id, p.id, middle, moved)
                    &&& match moved {
                        Ok(_) => after == crate::storage::without(middle, id),
                        Err(e) => after == middle && Ok::<(), StorageError>(()) == Err::<
                            (),
                            StorageError,
                        >(e),
                    }
                };
            let stamps = choose|stamps: Seq<Stamp>|
                middle == (#[trigger] reparenting_all(
                    g,
                    children.take(stamps.len() as int),
                    id,
                    p.id,
                    stamps,
                )).graph;
            lemma_moving_keeps_fragments(
                g,
                children.take(stamps.len() as int),
                id,
                p.id,
                stamps,
            );
        }
    }
    assert forall|k: int| 0 <= k < left.len() implies exists|m: int|
        #![trigger g.fragments[m]]
        0 <= m < g.fragments.len() && alike(g.fragments[m], #[trigger] left[k]) && (
        g.fragments[m].superseded_by is None ==> left[k].superseded_by is None) && left[k].id
            != id by {
        assert(keep(kept[k]) && g.fragments.contains(kept[k]));
        let m = choose|m: int| 0 <= m < g.fragments.len() && g.fragments[m] == kept[k];
        assert(alike(g.fragments[m], left[k]));
    }
    if crate::storage::has_fragment(left, id) {
        let k = choose|k: int| 0 <= k < left.len() && (#[trigger] left[k]).id == id;
        assert(left[k].id != id);
    }
}

proof fn lemma_all_forgotten_are_gone(g: StorageView, ids: Seq<FragmentId>, after: StorageView)
    requires
        all_forgotten(g, ids, after),
    ensures
        comes_from(g.fragments, after.fragments),
        forall|k: int|
            0 <= k < ids.len() ==> !crate::storage::has_fragment(after.fragments, #[trigger] ids[k]),
    decreases ids.len(),
{
    if ids.len() == 0 {
        assert forall|k: int| 0 <= k < after.fragments.len() implies exists|m: int|
            #![trigger g.fragments[m]]
            0 <= m < g.fragments.len() && alike(g.fragments[m], #[trigger] after.fragments[k]) && (
            g.fragments[m].superseded_by is None ==> after.fragments[k].superseded_by is None) by {
            assert(alike(g.fragments[k], after.fragments[k]));
        }
    } else {
        let middle = choose|middle: StorageView| #[trigger]
            fragment_forgotten(middle, ids.last(), after, Ok(())) && all_forgotten(
                g,
                ids.drop_last(),
                middle,
            );
        lemma_all_forgotten_are_gone(g, ids.drop_last(), middle);
        lemma_forgotten_is_gone(middle, ids.last(), after);
        assert forall|k: int| 0 <= k < after.fragments.len() implies exists|m: int|
            #![trigger g.fragments[m]]
            0 <= m < g.fragments.len() && alike(g.fragments[m], #[trigger] after.fragments[k]) && (
            g.fragments[m].superseded_by is None ==> after.fragments[k].superseded_by is None) by {
            let m = choose|m: int|
                #![trigger middle.fragments[m]]
                0 <= m < middle.fragments.len() && alike(middle.fragments[m], after.fragments[k])
                    && (middle.fragments[m].superseded_by is None
                    ==> after.fragments[k].superseded_by is None);
            let n = choose|n: int|
                #![trigger g.fragments[n]]
                0 <= n < g.fragments.len() && alike(g.fragments[n], middle.fragments[m]) && (
                g.fragments[n].superseded_by is None ==> middle.fragments[m].superseded_by
                    is None);
            assert(alike(g.fragments[n], after.fragments[k]));
        }
        assert forall|k: int| 0 <= k < ids.len() implies !crate::storage::has_fragment(
            after.fragments,
            #[trigger] ids[k],
        ) by {
            if k < ids.len() - 1 && crate::storage::has_fragment(after.fragments, ids[k]) {
                assert(ids.drop_last()[k] == ids[k]);
                let a = choose|a: int|
                    0 <= a < after.fragments.len() && (#[trigger] after.fragments[a]).id == ids[k];
                let m = choose|m: int|
                    #![trigger middle.fragments[m]]
                    0 <= m < middle.fragments.len() && alike(
                        middle.fragments[m],
                        after.fragments[a],
                    );
                assert(middle.fragments[m].id == ids[k]);
            }
        }
    }
}

proof fn lemma_listed(
    fs: Seq<FragmentView>,
    keep: spec_fn(FragmentView) -> bool,
    more: spec_fn(FragmentView) -> bool,
    f: FragmentView,
)
    requires
        fs.contains(f),
        keep(f),
    ensures
        ids_of(fs.filter(keep)).contains(f.id),
        more(f) ==> ids_of(fs.filter(keep).filter(more)).contains(f.id),
{
    crate::lists::lemma_filter_members(fs, keep);
    crate::lists::lemma_filter_members(fs.filter(keep), more);
    let i = choose|i: int| 0 <= i < fs.len() && fs[i] == f;
    assert(keep(fs[i]));
    let kept = fs.filter(keep);
    let k = choose|k: int| 0 <= k < kept.len() && kept[k] == f;
    assert(ids_of(kept)[k] == f.id);
    if more(f) {
        assert(more(kept[k]));
        let twice = kept.filter(more);
        let m = choose|m: int| 0 <= m < twice.len() && twice[m] == f;
        assert(ids_of(twice)[m] == f.id);
    }
}

/// What is negligible is forgotten: below the roots, an active fragment with a relevance
/// under 0.02 that was never accessed and is older than 60 days, and one under 0.01 that
/// is older than 90 days.
pub proof fn law_negligible_is_forgotten(
    g: StorageView,
    now: i64,
    after: StorageView,
    n: usize,
    f: FragmentView,
)
    requires
        crate::storage::unique_fragments(g.fragments),
        forgetting(g, now, after, Ok(n)),
        g.fragments.contains(f),
        f.superseded_by is None,
        f.depth > 0,
        (f.relevance_score < 20_000_000 && f.access_count == 0 && f.created_at < now - 60 * 86_400)
            || (f.relevance_score < 10_000_000 && f.created_at < now - 90 * 86_400),
    ensures
        !crate::storage::has_fragment(after.fragments, f.id),
{
    let middle = choose|middle: StorageView| #[trigger]
        all_forgotten(g, stale(g, now), middle) && all_forgotten(
            middle,
            very_stale(middle, now),
            after,
        );
    lemma_all_forgotten_are_gone(g, stale(g, now), middle);
    lemma_all_forgotten_are_gone(middle, very_stale(middle, now), after);
    if f.relevance_score < 20_000_000 && f.access_count == 0 && f.created_at < now - 60 * 86_400 {
        lemma_listed(
            g.fragments,
            crate::storage::forgettable(20_000_000, (60 * DAY) as i64, now),
            never_accessed(),
            f,
        );
        let k = choose|k: int| 0 <= k < stale(g, now).len() && stale(g, now)[k] == f.id;
        assert(!crate::storage::has_fragment(middle.fragments, stale(g, now)[k]));
    }
    if crate::storage::has_fragment(after.fragments, f.id) {
        let a = choose|a: int|
            0 <= a < after.fragments.len() && (#[trigger] after.fragments[a]).id == f.id;
        let m = choose|m: int|
            #![trigger middle.fragments[m]]
            0 <= m < middle.fragments.len() && alike(middle.fragments[m], after.fragments[a]);
        let e = middle.fragments[m];
        assert(crate::storage::has_fragment(middle.fragments, f.id));
        let i = choose|i: int|
            #![trigger g.fragments[i]]
            0 <= i < g.fragments.len() && alike(g.fragments[i], e) && (
            g.fragments[i].superseded_by is None ==> e.superseded_by is None);
        let j = choose|j: int| 0 <= j < g.fragments.len() && g.fragments[j] == f;
        crate::storage::lemma_fragment_at(g.fragments, i);
        crate::storage::lemma_fragment_at(g.fragments, j);
        assert(g.fragments[i] == f);
        assert(middle.fragments.contains(e));
        lemma_listed(
            middle.fragments,
            crate::storage::forgettable(10_000_000, (90 * DAY) as i64, now),
            never_accessed(),
            e,
        );
        let ids = very_stale(middle, now);
        let k = choose|k: int| 0 <= k < ids.len() && ids[k] == f.id;
        assert(!crate::storage::has_fragment(after.fragments, ids[k]));
    }
}

/// What is not negligible is kept: whatever has a relevance of 0.02 or more, was accessed
/// and has 0.01 or more, or is not older than 60 days.
pub proof fn law_relevant_is_kept(
    g: StorageView,
    now: i64,
    after: StorageView,
    result: Result<usize, StorageError>,
    f: FragmentView,
)
    requires
        crate::storage::unique_fragments(g.fragments),
        forgetting(g, now, after, result),
        g.fragments.contains(f),
        f.relevance_score >= 20_000_000 || (f.access_count > 0 && f.relevance_score >= 10_000_000)
            || f.created_at >= now - 60 * 86_400 || f.depth == 0,
    ensures
        exists|k: int|
            0 <= k < after.fragments.len() && (#[trigger] after.fragments[k]).id == f.id
                && after.fragments[k].content == f.content && after.fragments[k].depth == f.depth,
{
    law_forgetting_spares(g, now, after, result, f);
    let k = choose|k: int| 0 <= k < after.fragments.len() && alike(f, #[trigger] after.fragments[k]);
    assert(after.fragments[k].id == f.id);
}

/// When all relevance is recomputed, each active fragment gets what the forgetting curve
/// leaves of it, and nothing else changes.
pub proof fn law_relevance_is_recomputed(g: StorageView, now: i64, i: int)
    requires
        0 <= i < g.fragments.len(),
    ensures
        ({
            let f = g.fragments[i];
            let after = after_fading(g, now);
            &&& after.fragments.len() == g.fragments.len()
            &&& after.edges == g.edges
            &&& f.superseded_by is Some ==> after.fragments[i] == f
            &&& f.superseded_by is None ==> after.fragments[i] == (FragmentView {
                relevance_score: crate::relevance::relevance(
                    f.importance as int,
                    f.access_count as nat,
                    f.decay_rate as int,
                    f.last_reinforced as int,
                    now as int,
                ) as i64,
                ..f
            })
        }),
{
}

// ---- summaries and parts of a cycle ----

/// A root is summed up anew where a child came after its last access, and a child that
/// did not makes no difference.
pub proof fn law_new_children_ask_for_a_summary(
    root: FragmentView,
    children: Seq<FragmentView>,
    child: FragmentView,
)
    ensures
        !has_new_child(root, Seq::empty()),
        child.created_at > root.last_accessed ==> has_new_child(root, children.push(child)),
        child.created_at <= root.last_accessed ==> (has_new_child(root, children.push(child))
            <==> has_new_child(root, children)),
        has_new_child(root, children) ==> has_new_child(root, children.push(child)),
{
    let all = children.push(child);
    assert(all[children.len() as int] == child);
    if has_new_child(root, children) {
        let i = choose|i: int|
            0 <= i < children.len() && (#[trigger] children[i]).created_at > root.last_accessed;
        assert(all[i] == children[i]);
    }
    if child.created_at <= root.last_accessed && has_new_child(root, all) {
        let i = choose|i: int|
            0 <= i < all.len() && (#[trigger] all[i]).created_at > root.last_accessed;
        assert(children[i] == all[i]);
    }
}

/// What stands somewhere within one part of a text stands within the text.
proof fn lemma_held_within(front: Seq<char>, part: Seq<char>, back: Seq<char>, item: Seq<char>)
    requires
        crate::text::contains(part, item),
    ensures
        crate::text::contains(front + part + back, item),
{
    crate::text::law_contains(part, item);
    let (before, behind) = choose|before: Seq<char>, behind: Seq<char>| #[trigger]
        (before + item + behind) == part;
    let whole = front + part + back;
    assert((front + before) + item + (behind + back) == whole);
    crate::text::law_contains(whole, item);
}

/// The list of children holds each of them.
proof fn lemma_child_listed(children: Seq<FragmentView>, k: int)
    requires
        0 <= k < children.len(),
    ensures
        crate::text::contains(
            crate::text::joined(bullets(children), "\n"@),
            "- "@ + children[k].content,
        ),
{
    let sep = "\n"@;
    let all = bullets(children);
    let item = "- "@ + children[k].content;
    let (front, own, rest) = (all.take(k), seq![item], all.skip(k + 1));
    assert(all == front + (own + rest));
    crate::text::law_joined(front, own + rest, item, sep);
    crate::text::law_joined(own, rest, item, sep);
    let before = if front.len() > 0 {
        crate::text::joined(front, sep) + sep
    } else {
        Seq::empty()
    };
    let behind = if rest.len() > 0 {
        sep + crate::text::joined(rest, sep)
    } else {
        Seq::empty()
    };
    assert(front.len() == 0 ==> front + (own + rest) == own + rest);
    assert(rest.len() == 0 ==> own + rest == own);
    let list = crate::text::joined(all, sep);
    assert(before + item + behind == list);
    crate::text::law_contains(list, item);
}

/// A request for a summary holds the content of every child, in a line of its own, and
/// the beginning of what the root says.
pub proof fn law_summary_holds_all_children(
    root: FragmentView,
    children: Seq<FragmentView>,
    k: int,
)
    requires
        0 <= k < children.len(),
    ensures
        crate::text::contains(summary_request(root, children), "- "@ + children[k].content),
        crate::text::contains(
            summary_request(root, children),
            crate::text::first_chars(root.content, 200),
        ),
{
    let list = crate::text::joined(bullets(children), "\n"@);
    let head = "Given these child fragments of a knowledge node:\n\nCurrent content: \""@;
    let now = crate::text::first_chars(root.content, 200);
    let mid = "\"\n\nChildren:\n"@;
    let foot =
        "\n\nWrite a self-contained overview paragraph (3-5 sentences) that captures the key knowledge at a higher abstraction level. Do not use bullet points or lists — write flowing prose.\n\nRespond with ONLY the paragraph, no explanation."@;
    let whole = summary_request(root, children);
    assert(whole == head + now + mid + list + foot);
    lemma_child_listed(children, k);
    lemma_held_within(head + now + mid, list, foot, "- "@ + children[k].content);
    assert(Seq::<char>::empty() + now + Seq::<char>::empty() == now);
    crate::text::law_contains(now, now);
    lemma_held_within(head, now, mid + list + foot, now);
    assert(head + now + (mid + list + foot) == whole);
}

/// The parts of a cycle come in their order; without a language model those that take
/// one are left out.
pub proof fn law_parts_of_a_cycle(with_model: bool, p: Phase, next: Phase)
    requires
        comes_next(p, with_model, next),
    ensures
        p == Phase::Digestion ==> next == Phase::Settling,
        p == Phase::Settling ==> next == if with_model {
            Phase::Resummarization
        } else {
            Phase::Forgetting
        },
        p == Phase::Resummarization && with_model ==> next == Phase::Reflection,
        p == Phase::Reflection && with_model ==> next == Phase::Contradictions,
        p == Phase::Contradictions ==> next == Phase::Forgetting,
        p == Phase::Forgetting ==> next == Phase::Done,
        p == Phase::Done ==> next == Phase::Done,
{
    assert(phase_place(Phase::Settling) == 1);
    assert(phase_place(Phase::Resummarization) == 2);
    assert(phase_place(Phase::Reflection) == 3);
    assert(phase_place(Phase::Contradictions) == 4);
    assert(phase_place(Phase::Forgetting) == 5);
}

// ---- what a cycle does as a whole ----

/// Where nothing is merged, nothing changes.
proof fn lemma_nothing_merged(
    g: StorageView,
    pairs: Seq<Pair>,
    merge_threshold: i64,
    after: StorageView,
)
    requires
        crate::storage::unique_fragments(g.fragments),
        pairs_merged(g, pairs, merge_threshold, after, 0),
    ensures
        after == g,
    decreases pairs.len(),
{
    if pairs.len() > 0 {
        let (middle, done) = choose|middle: StorageView, done: bool| #[trigger]
            pair_merged(middle, pairs.last(), merge_threshold, after, Ok(done)) && pairs_merged(
                g,
                pairs.drop_last(),
                merge_threshold,
                middle,
                if done {
                    (0 - 1) as nat
                } else {
                    0
                },
            ) && (done ==> 0nat > 0);
        lemma_nothing_merged(g, pairs.drop_last(), merge_threshold, middle);
        lemma_pair_marked(middle, pairs.last(), merge_threshold, after, done);
    }
}

/// The first part of a cycle leaves no two near-duplicates side by side: whichever two
/// active roots are more similar than both thresholds, one of them is active no more. It
/// recomputes the relevance of what is active, and tells of how many it did and how many
/// are active no more.
pub proof fn law_settling(
    g: StorageView,
    before: ConsolidationStats,
    similarity_threshold: i64,
    merge_threshold: i64,
    now: i64,
    after: StorageView,
    stats: ConsolidationStats,
    i: int,
    j: int,
)
    requires
        crate::storage::unique_fragments(g.fragments),
        g.fragments.len() <= usize::MAX,
        settled(g, before, similarity_threshold, merge_threshold, now, after, stats),
        0 <= i < g.fragments.len(),
        0 <= j < g.fragments.len(),
        i != j,
    ensures
        after.fragments.len() == g.fragments.len(),
        ({
            let (a, b) = (g.fragments[i], g.fragments[j]);
            &&& a.depth == 0 && b.depth == 0 && a.superseded_by is None && b.superseded_by is None
                && a.embedding.len() > 0 && b.embedding.len() > 0 && crate::embedding::similarity(
                a.embedding,
                b.embedding,
            ) > similarity_threshold && crate::embedding::similarity(a.embedding, b.embedding)
                > merge_threshold ==> after.fragments[i].superseded_by is Some
                || after.fragments[j].superseded_by is Some
            &&& a.superseded_by is None ==> after.fragments[i].relevance_score
                == crate::relevance::relevance(
                a.importance as int,
                a.access_count as nat,
                a.decay_rate as int,
                a.last_reinforced as int,
                now as int,
            ) as i64
            &&& after.fragments[i].id == a.id && after.fragments[i].content == a.content
        }),
        stats.relevance_updated == g.fragments.filter(crate::storage::active()).len(),
        g.fragments.filter(crate::storage::active()).len() == after.fragments.filter(
            crate::storage::active(),
        ).len() + stats.roots_merged,
        stats.sessions_digested == before.sessions_digested,
        stats.fragments_extracted == before.fragments_extracted,
        stats.edges_pruned == before.edges_pruned,
{
    let faded = after_fading(g, now);
    let pairs = similar_roots(faded, similarity_threshold);
    let middle = choose|middle: StorageView|
        {
            let again = pairs_to_link(
                middle,
                pairs,
                stats.roots_merged as nat,
                similarity_threshold,
            );
            &&& #[trigger] pairs_merged(
                faded,
                pairs,
                merge_threshold,
                middle,
                stats.roots_merged as nat,
            )
            &&& links_made(
                middle,
                planned_links(middle, again, again.len() as int),
                after,
                Ok(stats.links_created),
            )
        };
    let again = pairs_to_link(middle, pairs, stats.roots_merged as nat, similarity_threshold);
    let plan = planned_links(middle, again, again.len() as int);
    assert forall|x: int, y: int| 0 <= x < y < faded.fragments.len() implies (
    #[trigger] faded.fragments[x]).id != (#[trigger] faded.fragments[y]).id by {
        assert(g.fragments[x].id != g.fragments[y].id);
    }
    law_duplicates_are_merged(
        faded,
        pairs,
        merge_threshold,
        middle,
        stats.roots_merged as nat,
    );
    law_planned_links_are_made(middle, plan, after, stats.links_created);
    law_relevance_is_recomputed(g, now, i);
    law_relevance_is_recomputed(g, now, j);
    let (a, b) = (faded.fragments[i], faded.fragments[j]);
    assert(middle.fragments[i].id == a.id);
    assert(middle.fragments[j].id == b.id);
    lemma_same_active(g.fragments, faded.fragments);
    crate::lists::lemma_filter_members(g.fragments, crate::storage::active());
    if a.depth == 0 && b.depth == 0 && a.superseded_by is None && b.superseded_by is None
        && a.embedding.len() > 0 && b.embedding.len() > 0 && crate::embedding::similarity(
        a.embedding,
        b.embedding,
    ) > similarity_threshold && crate::embedding::similarity(a.embedding, b.embedding)
        > merge_threshold {
        crate::embedding::law_similarity_symmetric(a.embedding, b.embedding);
        crate::embedding::law_similarity_range(a.embedding, b.embedding);
        if i < j {
            assert(faded.fragments[i].id != faded.fragments[j].id);
        } else {
            assert(faded.fragments[j].id != faded.fragments[i].id);
        }
        assert(faded.fragments.contains(a) && faded.fragments.contains(b));
        law_no_duplicates_escape(faded, similarity_threshold, a, b);
        if pairs.contains(pair_of(a, b)) {
            let k = choose|k: int| 0 <= k < pairs.len() && pairs[k] == pair_of(a, b);
            assert(pairs[k].similarity > merge_threshold);
            assert(middle.fragments[i].superseded_by is Some || middle.fragments[j].superseded_by
                is Some);
        } else {
            let k = choose|k: int| 0 <= k < pairs.len() && pairs[k] == pair_of(b, a);
            assert(pairs[k].similarity > merge_threshold);
            assert(middle.fragments[j].superseded_by is Some || middle.fragments[i].superseded_by
                is Some);
        }
    }
}

proof fn lemma_same_active(fs: Seq<FragmentView>, us: Seq<FragmentView>)
    requires
        fs.len() == us.len(),
        forall|i: int|
            0 <= i < fs.len() ==> ((#[trigger] us[i]).superseded_by is None <==> fs[i].superseded_by
                is None),
    ensures
        fs.filter(crate::storage::active()).len() == us.filter(crate::storage::active()).len(),
    decreases fs.len(),
{
    reveal(Seq::filter);
    if fs.len() > 0 {
        let (front, behind) = (fs.drop_last(), us.drop_last());
        assert forall|i: int| 0 <= i < front.len() implies ((#[trigger] behind[i]).superseded_by
            is None <==> front[i].superseded_by is None) by {
            assert(us[i].superseded_by is None <==> fs[i].superseded_by is None);
        }
        lemma_same_active(front, behind);
        assert(us[us.len() - 1].superseded_by is None <==> fs[fs.len() - 1].superseded_by is None);
    }
}

/// The first part of a cycle links what is related by then: for every two children of two
/// similar roots that are more similar than 0.7 there is a link of that weight, and as
/// many are told of as were made. Similar roots are those after merging.
pub proof fn law_settling_links(
    g: StorageView,
    before: ConsolidationStats,
    similarity_threshold: i64,
    merge_threshold: i64,
    now: i64,
    after: StorageView,
    stats: ConsolidationStats,
)
    requires
        crate::storage::unique_fragments(g.fragments),
        settled(g, before, similarity_threshold, merge_threshold, now, after, stats),
    ensures
        exists|middle: StorageView|
            {
                let plan = planned_links(
                    middle,
                    similar_roots(middle, similarity_threshold),
                    #[trigger] similar_roots(middle, similarity_threshold).len() as int,
                );
                &&& after.fragments == middle.fragments
                &&& after.edges.len() == middle.edges.len() + stats.links_created
                &&& stats.links_created == plan.len()
                &&& forall|k: int|
                    0 <= k < plan.len() ==> is_link_of(
                        after.edges[middle.edges.len() + k],
                        #[trigger] plan[k],
                    )
            },
{
    let faded = after_fading(g, now);
    let pairs = similar_roots(faded, similarity_threshold);
    let middle = choose|middle: StorageView|
        {
            let again = pairs_to_link(
                middle,
                pairs,
                stats.roots_merged as nat,
                similarity_threshold,
            );
            &&& #[trigger] pairs_merged(
                faded,
                pairs,
                merge_threshold,
                middle,
                stats.roots_merged as nat,
            )
            &&& links_made(
                middle,
                planned_links(middle, again, again.len() as int),
                after,
                Ok(stats.links_created),
            )
        };
    assert forall|x: int, y: int| 0 <= x < y < faded.fragments.len() implies (
    #[trigger] faded.fragments[x]).id != (#[trigger] faded.fragments[y]).id by {
        assert(g.fragments[x].id != g.fragments[y].id);
    }
    if stats.roots_merged == 0 {
        lemma_nothing_merged(faded, pairs, merge_threshold, middle);
    }
    let again = similar_roots(middle, similarity_threshold);
    assert(again == pairs_to_link(
        middle,
        pairs,
        stats.roots_merged as nat,
        similarity_threshold,
    ));
    law_planned_links_are_made(
        middle,
        planned_links(middle, again, again.len() as int),
        after,
        stats.links_created,
    );
    assert(similar_roots(middle, similarity_threshold).len() == again.len());
}

proof fn lemma_one_removed(fs: Seq<FragmentView>, k: int)
    requires
        crate::storage::unique_fragments(fs),
        0 <= k < fs.len(),
    ensures
        fs.filter(crate::storage::other_than(fs[k].id)).len() == fs.len() - 1,
    decreases fs.len(),
{
    reveal(Seq::filter);
    let keep = crate::storage::other_than(fs[k].id);
    let front = fs.drop_last();
    assert forall|x: int, y: int| 0 <= x < y < front.len() implies (#[trigger] front[x]).id != (
    #[trigger] front[y]).id by {
        assert(fs[x].id != fs[y].id);
    }
    if k < front.len() {
        lemma_one_removed(front, k);
        assert(fs[k].id != fs[fs.len() - 1].id);
    } else {
        lemma_all_kept(front, fs[k].id);
    }
}

proof fn lemma_all_kept(fs: Seq<FragmentView>, id: FragmentId)
    requires
        forall|i: int| 0 <= i < fs.len() ==> (#[trigger] fs[i]).id != id,
    ensures
        fs.filter(crate::storage::other_than(id)).len() == fs.len(),
    decreases fs.len(),
{
    reveal(Seq::filter);
    if fs.len() > 0 {
        let front = fs.drop_last();
        assert forall|i: int| 0 <= i < front.len() implies (#[trigger] front[i]).id != id by {
            assert(fs[i].id != id);
        }
        lemma_all_kept(front, id);
        assert(fs[fs.len() - 1].id != id);
    }
}

/// What is left after a fragment was forgotten: one fragment less, and all others.
proof fn lemma_one_forgotten(g: StorageView, id: FragmentId, after: StorageView)
    requires
        crate::storage::unique_fragments(g.fragments),
        crate::storage::has_fragment(g.fragments, id),
        fragment_forgotten(g, id, after, Ok(())),
    ensures
        after.fragments.len() == g.fragments.len() - 1,
        crate::storage::unique_fragments(after.fragments),
        forall|x: FragmentId|
            x != id && crate::storage::has_fragment(g.fragments, x)
                ==> #[trigger] crate::storage::has_fragment(after.fragments, x),
{
    let keep = crate::storage::other_than(id);
    let to = crate::storage::released(id, crate::storage::heir(g.fragments, id));
    let kept = g.fragments.filter(keep);
    let left = kept.map_values(to);
    let children = crate::storage::children_of(g, id);
    assert(after.fragments == left) by {
        if let Some(p) = crate::storage::parent_of(g, id) {
            let (middle, moved) = choose|middle: StorageView, moved: Result<(), StorageError>|
                {
                    &&& #[trigger] children_moved(g, children, id, p.id, middle, moved)
                    &&& match moved {
                        Ok(_) => after == crate::storage::without(middle, id),
                        Err(e) => after == middle && Ok::<(), StorageError>(()) == Err::<
                            (),
                            StorageError,
                        >(e),
                    }
                };
            let stamps = choose|stamps: Seq<Stamp>|
                middle == (#[trigger] reparenting_all(
                    g,
                    children.take(stamps.len() as int),
                    id,
                    p.id,
                    stamps,
                )).graph;
            lemma_moving_keeps_fragments(
                g,
                children.take(stamps.len() as int),
                id,
                p.id,
                stamps,
            );
        }
    }
    let k = choose|k: int| 0 <= k < g.fragments.len() && (#[trigger] g.fragments[k]).id == id;
    lemma_one_removed(g.fragments, k);
    crate::storage::lemma_filtered_unique(g.fragments, keep);
    crate::lists::lemma_filter_members(g.fragments, keep);
    assert forall|x: int, y: int| 0 <= x < y < left.len() implies (#[trigger] left[x]).id != (
    #[trigger] left[y]).id by {
        assert(kept[x].id != kept[y].id);
    }
    assert forall|x: FragmentId|
        x != id && crate::storage::has_fragment(
            g.fragments,
            x,
        ) implies #[trigger] crate::storage::has_fragment(after.fragments, x) by {
        let i = choose|i: int| 0 <= i < g.fragments.len() && (#[trigger] g.fragments[i]).id == x;
        assert(keep(g.fragments[i]));
        let m = choose|m: int| 0 <= m < kept.len() && kept[m] == g.fragments[i];
        assert(left[m].id == x);
    }
}

proof fn lemma_forgotten_count(g: StorageView, ids: Seq<FragmentId>, after: StorageView)
    requires
        crate::storage::unique_fragments(g.fragments),
        ids.no_duplicates(),
        forall|k: int|
            0 <= k < ids.len() ==> crate::storage::has_fragment(g.fragments, #[trigger] ids[k]),
        all_forgotten(g, ids, after),
    ensures
        after.fragments.len() + ids.len() == g.fragments.len(),
        crate::storage::unique_fragments(after.fragments),
        forall|x: FragmentId|
            !ids.contains(x) && crate::storage::has_fragment(g.fragments, x)
                ==> #[trigger] crate::storage::has_fragment(after.fragments, x),
    decreases ids.len(),
{
    if ids.len() > 0 {
        let front = ids.drop_last();
        let id = ids.last();
        let middle = choose|middle: StorageView| #[trigger]
            fragment_forgotten(middle, id, after, Ok(())) && all_forgotten(g, front, middle);
        assert forall|k: int| 0 <= k < front.len() implies crate::storage::has_fragment(
            g.fragments,
            #[trigger] front[k],
        ) by {
            assert(crate::storage::has_fragment(g.fragments, ids[k]));
        }
        lemma_forgotten_count(g, front, middle);
        assert(!front.contains(id)) by {
            if front.contains(id) {
                let k = choose|k: int| 0 <= k < front.len() && front[k] == id;
                assert(ids[k] == ids[ids.len() - 1]);
            }
        }
        assert(crate::storage::has_fragment(g.fragments, ids[ids.len() - 1]));
        lemma_one_forgotten(middle, id, after);
        assert forall|x: FragmentId|
            !ids.contains(x) && crate::storage::has_fragment(
                g.fragments,
                x,
            ) implies #[trigger] crate::storage::has_fragment(after.fragments, x) by {
            assert(x != id) by {
                assert(ids[ids.len() - 1] == id);
            }
            if front.contains(x) {
                let k = choose|k: int| 0 <= k < front.len() && front[k] == x;
                assert(ids[k] == x);
            }
        }
    }
}

proof fn lemma_ids_distinct(
    g: StorageView,
    keep: spec_fn(FragmentView) -> bool,
    more: spec_fn(FragmentView) -> bool,
)
    requires
        crate::storage::unique_fragments(g.fragments),
    ensures
        ({
            let once = ids_of(g.fragments.filter(keep));
            let twice = ids_of(g.fragments.filter(keep).filter(more));
            &&& once.no_duplicates() && twice.no_duplicates()
            &&& forall|k: int|
                0 <= k < once.len() ==> crate::storage::has_fragment(g.fragments, #[trigger] once[k])
            &&& forall|k: int|
                0 <= k < twice.len() ==> crate::storage::has_fragment(
                    g.fragments,
                    #[trigger] twice[k],
                )
        }),
{
    let a = g.fragments.filter(keep);
    let b = a.filter(more);
    crate::storage::lemma_filtered_unique(g.fragments, keep);
    crate::storage::lemma_filtered_unique(a, more);
    crate::lists::lemma_filter_members(g.fragments, keep);
    crate::lists::lemma_filter_members(a, more);
    assert forall|x: int, y: int|
        0 <= x < ids_of(a).len() && 0 <= y < ids_of(a).len() && x != y implies ids_of(a)[x]
        != ids_of(a)[y] by {
        if x < y {
            assert(a[x].id != a[y].id);
        } else {
            assert(a[y].id != a[x].id);
        }
    }
    assert forall|x: int, y: int|
        0 <= x < ids_of(b).len() && 0 <= y < ids_of(b).len() && x != y implies ids_of(b)[x]
        != ids_of(b)[y] by {
        if x < y {
            assert(b[x].id != b[y].id);
        } else {
            assert(b[y].id != b[x].id);
        }
    }
    assert forall|k: int| 0 <= k < ids_of(a).len() implies crate::storage::has_fragment(
        g.fragments,
        #[trigger] ids_of(a)[k],
    ) by {
        assert(g.fragments.contains(a[k]));
        let i = choose|i: int| 0 <= i < g.fragments.len() && g.fragments[i] == a[k];
        assert(g.fragments[i].id == ids_of(a)[k]);
    }
    assert forall|k: int| 0 <= k < ids_of(b).len() implies crate::storage::has_fragment(
        g.fragments,
        #[trigger] ids_of(b)[k],
    ) by {
        assert(a.contains(b[k]));
        let m = choose|m: int| 0 <= m < a.len() && a[m] == b[k];
        assert(g.fragments.contains(a[m]));
        let i = choose|i: int| 0 <= i < g.fragments.len() && g.fragments[i] == a[m];
        assert(g.fragments[i].id == ids_of(b)[k]);
    }
}

/// What is forgotten is counted: as many fragments are told of as there are less.
pub proof fn law_forgotten_are_counted(g: StorageView, now: i64, after: StorageView, n: usize)
    requires
        crate::storage::unique_fragments(g.fragments),
        g.fragments.len() <= usize::MAX,
        forgetting(g, now, after, Ok(n)),
    ensures
        after.fragments.len() + n == g.fragments.len(),
{
    let middle = choose|middle: StorageView| #[trigger]
        all_forgotten(g, stale(g, now), middle) && all_forgotten(
            middle,
            very_stale(middle, now),
            after,
        ) && n == counted(stale(g, now).len() + very_stale(middle, now).len());
    lemma_ids_distinct(
        g,
        crate::storage::forgettable(20_000_000, (60 * DAY) as i64, now),
        never_accessed(),
    );
    lemma_forgotten_count(g, stale(g, now), middle);
    lemma_ids_distinct(
        middle,
        crate::storage::forgettable(10_000_000, (90 * DAY) as i64, now),
        never_accessed(),
    );
    lemma_forgotten_count(middle, very_stale(middle, now), after);
}

/// A cycle without a language model settles the memory and forgets, and tells of what it
/// did: of edges and fragments as many as there are less, and of what takes a model
/// nothing.
pub proof fn law_cycle_counts(
    g: StorageView,
    similarity_threshold: i64,
    merge_threshold: i64,
    now: i64,
    after: StorageView,
    stats: ConsolidationStats,
)
    requires
        crate::storage::unique_fragments(g.fragments),
        g.fragments.len() <= usize::MAX,
        cycled(g, similarity_threshold, merge_threshold, now, after, stats),
    ensures
        after.fragments.len() + stats.fragments_pruned == g.fragments.len(),
        stats.sessions_digested == 0 && stats.fragments_extracted == 0 && stats.roots_resummarized
            == 0 && stats.reflections_generated == 0 && stats.contradictions_resolved == 0,
        stats.relevance_updated == g.fragments.filter(crate::storage::active()).len(),
        exists|middle: StorageView, half: ConsolidationStats|
            {
                &&& #[trigger] settled(
                    g,
                    no_counts(),
                    similarity_threshold,
                    merge_threshold,
                    now,
                    middle,
                    half,
                )
                &&& stats.roots_merged == half.roots_merged && stats.links_created
                    == half.links_created
                &&& forgetting(edges_after_cycle(middle), now, after, Ok(stats.fragments_pruned))
                &&& middle.edges.len() <= usize::MAX ==> stats.edges_pruned == middle.edges.len()
                    - edges_after_cycle(middle).edges.len()
            },
{
    let (middle, half) = choose|middle: StorageView, half: ConsolidationStats|
        {
            &&& #[trigger] settled(
                g,
                no_counts(),
                similarity_threshold,
                merge_threshold,
                now,
                middle,
                half,
            )
            &&& stats == counts_after_forgetting(middle, half, stats.fragments_pruned)
            &&& forgetting(edges_after_cycle(middle), now, after, Ok(stats.fragments_pruned))
        };
    lemma_settled_fragments(
        g,
        no_counts(),
        similarity_threshold,
        merge_threshold,
        now,
        middle,
        half,
    );
    let light = crate::storage::decayed(middle.edges, EdgeKind::Associative, EDGE_DECAY);
    crate::lists::lemma_filter_members(
        light,
        crate::storage::not_weak(EdgeKind::Associative, MIN_EDGE_WEIGHT),
    );
    law_forgotten_are_counted(edges_after_cycle(middle), now, after, stats.fragments_pruned);
    crate::lists::lemma_filter_members(g.fragments, crate::storage::active());
}

proof fn lemma_settled_fragments(
    g: StorageView,
    before: ConsolidationStats,
    similarity_threshold: i64,
    merge_threshold: i64,
    now: i64,
    after: StorageView,
    stats: ConsolidationStats,
)
    requires
        crate::storage::unique_fragments(g.fragments),
        settled(g, before, similarity_threshold, merge_threshold, now, after, stats),
    ensures
        after.fragments.len() == g.fragments.len(),
        crate::storage::unique_fragments(after.fragments),
{
    let faded = after_fading(g, now);
    let pairs = similar_roots(faded, similarity_threshold);
    let middle = choose|middle: StorageView|
        {
            let again = pairs_to_link(
                middle,
                pairs,
                stats.roots_merged as nat,
                similarity_threshold,
            );
            &&& #[trigger] pairs_merged(
                faded,
                pairs,
                merge_threshold,
                middle,
                stats.roots_merged as nat,
            )
            &&& links_made(
                middle,
                planned_links(middle, again, again.len() as int),
                after,
                Ok(stats.links_created),
            )
        };
    assert forall|x: int, y: int| 0 <= x < y < faded.fragments.len() implies (
    #[trigger] faded.fragments[x]).id != (#[trigger] faded.fragments[y]).id by {
        assert(g.fragments[x].id != g.fragments[y].id);
    }
    law_duplicates_are_merged(
        faded,
        pairs,
        merge_threshold,
        middle,
        stats.roots_merged as nat,
    );
    let again = pairs_to_link(middle, pairs, stats.roots_merged as nat, similarity_threshold);
    law_planned_links_are_made(
        middle,
        planned_links(middle, again, again.len() as int),
        after,
        stats.links_created,
    );
}

/// The limits of a cycle: ten pairs are asked about at once and ten sessions digested.
pub proof fn law_limits()
    ensures
        CONTRADICTION_BATCH_SIZE == 10,
        MAX_SESSIONS_PER_CONSOLIDATION == 10,
        CONTRADICTION_SIMILARITY == 500_000_000,
        TOPIC_MERGE_THRESHOLD == 900_000_000,
        CROSS_THRESHOLD == 700_000_000,
        DAY == 24 * 60 * 60,
{
}

/// A child that moves leaves its parent and goes to another one by an edge of the hierarchy
/// of full weight; all other edges stay.
pub proof fn law_a_child_moves(
    g: StorageView,
    child: FragmentId,
    from: FragmentId,
    to: FragmentId,
    stamp: Stamp,
)
    requires
        reparenting(g, child, from, to, stamp).result is Ok,
    ensures
        reparenting(g, child, from, to, stamp).graph == (StorageView {
            edges: g.edges.filter(
                |e: EdgeView|
                    e.source != from || e.target != child || e.kind != EdgeKind::Hierarchical,
            ).push(
                EdgeView {
                    id: stamp.id,
                    source: to,
                    target: child,
                    kind: EdgeKind::Hierarchical,
                    weight: 1_000_000_000,
                    content: None,
                    created_at: stamp.now,
                },
            ),
            ..g
        }),
{
    let one = crate::storage::not_between(from, child, EdgeKind::Hierarchical);
    let other = |e: EdgeView|
        e.source != from || e.target != child || e.kind != EdgeKind::Hierarchical;
    assert forall|e: EdgeView| #[trigger] one(e) == other(e) by {}
    crate::lists::lemma_filter_agrees(g.edges, one, other);
}

/// A merge that is refused changes no knowledge.
proof fn lemma_refused_pair_keeps_knowledge(
    g: StorageView,
    survivor: FragmentId,
    victim: FragmentId,
    after: StorageView,
    error: StorageError,
)
    requires
        victim_merged(g, survivor, victim, after, Err(error)),
    ensures
        keeps_knowledge(g.fragments, after.fragments),
{
    let children = crate::storage::children_of(g, victim);
    let (middle, moved) = choose|middle: StorageView, moved: Result<(), StorageError>|
        {
            &&& #[trigger] children_moved(g, children, victim, survivor, middle, moved)
            &&& match moved {
                Ok(_) => exists|stamp: Stamp| #[trigger]
                    crate::changes::is_drawn(stamp) && ({
                        let o = crate::changes::superseding(middle, victim, survivor, stamp);
                        after == o.graph && Err::<(), StorageError>(error) == o.result
                    }),
                Err(e) => after == middle && Err::<(), StorageError>(error) == Err::<
                    (),
                    StorageError,
                >(e),
            }
        };
    let stamps = choose|stamps: Seq<Stamp>|
        middle == (#[trigger] reparenting_all(
            g,
            children.take(stamps.len() as int),
            victim,
            survivor,
            stamps,
        )).graph;
    lemma_moving_keeps_fragments(
        g,
        children.take(stamps.len() as int),
        victim,
        survivor,
        stamps,
    );
}

/// Where the first part of a cycle is refused, no knowledge is lost or changed.
pub proof fn law_a_refused_cycle_keeps_knowledge(
    g: StorageView,
    similarity_threshold: i64,
    merge_threshold: i64,
    now: i64,
    after: StorageView,
    error: StorageError,
    i: int,
)
    requires
        settling_refused(g, similarity_threshold, merge_threshold, now, after, error),
        0 <= i < g.fragments.len(),
    ensures
        after.fragments.len() == g.fragments.len(),
        after.fragments[i].id == g.fragments[i].id,
        after.fragments[i].content == g.fragments[i].content,
        after.fragments[i].summary == g.fragments[i].summary,
        after.fragments[i].depth == g.fragments[i].depth,
        after.fragments[i].embedding == g.fragments[i].embedding,
        after.fragments[i].created_at == g.fragments[i].created_at,
{
    let faded = after_fading(g, now);
    let pairs = similar_roots(faded, similarity_threshold);
    if merging_refused(faded, pairs, merge_threshold, after, error) {
        let (k, middle, count) = choose|k: int, middle: StorageView, count: nat|
            0 <= k < pairs.len() && #[trigger] pairs_merged(
                faded,
                pairs.take(k),
                merge_threshold,
                middle,
                count,
            ) && pair_merged(middle, pairs[k], merge_threshold, after, Err(error));
        lemma_merging_keeps_knowledge(faded, pairs.take(k), merge_threshold, middle, count);
        let sv = survivor_and_victim(middle, pairs[k])->0;
        lemma_refused_pair_keeps_knowledge(middle, sv.0, sv.1, after, error);
        assert(same_knowledge(faded.fragments[i], middle.fragments[i]));
        assert(same_knowledge(middle.fragments[i], after.fragments[i]));
    } else {
        let (middle, merged) = choose|middle: StorageView, merged: nat|
            {
                let again = pairs_to_link(middle, pairs, merged, similarity_threshold);
                &&& #[trigger] pairs_merged(faded, pairs, merge_threshold, middle, merged)
                &&& links_made(
                    middle,
                    planned_links(middle, again, again.len() as int),
                    after,
                    Err(error),
                )
            };
        let again = pairs_to_link(middle, pairs, merged, similarity_threshold);
        let plan = planned_links(middle, again, again.len() as int);
        let stamps = choose|stamps: Seq<Stamp>|
            after == (#[trigger] linking_all(middle, plan.take(stamps.len() as int), stamps)).graph;
        lemma_linking_keeps_fragments(middle, plan.take(stamps.len() as int), stamps);
        lemma_merging_keeps_knowledge(faded, pairs, merge_threshold, middle, merged);
        assert(same_knowledge(faded.fragments[i], middle.fragments[i]));
    }
    assert(same_knowledge(g.fragments[i], faded.fragments[i]));
}

} // verus!
