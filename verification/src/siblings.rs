//! Where new knowledge goes, and the reading order of what lies below a root.
//!
//! Knowledge that fits a root becomes its last child, and a temporal edge leads to
//! it from the child before it. Knowledge that fits none makes a root of its own.

#[allow(unused_imports)]
use vstd::prelude::*;

#[allow(unused_imports)]
use crate::changes::{linking, stamped_edge};
#[allow(unused_imports)]
use crate::edge::{EdgeKind, EdgeView};
#[allow(unused_imports)]
use crate::fixed::ONE;
#[allow(unused_imports)]
use crate::fragment::{FragmentId, FragmentView};
#[allow(unused_imports)]
use crate::storage::StorageView;
#[allow(unused_imports)]
use crate::store::{SeedView, TreeStamps};

verus! {

/// Fragments have identifiers of their own, and edges lead between fragments.
spec fn is_anchored(g: StorageView) -> bool {
    crate::storage::unique_fragments(g.fragments) && crate::storage::anchored(g.fragments, g.edges)
}

/// A fragment that is added changes nothing for those that are there.
proof fn lemma_added(g: StorageView, f: FragmentView, x: FragmentId)
    requires
        is_anchored(g),
        !crate::storage::has_fragment(g.fragments, f.id),
    ensures
        is_anchored(StorageView { fragments: g.fragments.push(f), ..g }),
        crate::storage::fragment_of(g.fragments.push(f), f.id) == Some(f),
        crate::storage::has_fragment(g.fragments, x) ==> crate::storage::fragment_of(
            g.fragments.push(f),
            x,
        ) == crate::storage::fragment_of(g.fragments, x),
{
    let fs = g.fragments;
    let more = fs.push(f);
    assert forall|i: int, j: int| 0 <= i < j < more.len() implies (#[trigger] more[i]).id != (
    #[trigger] more[j]).id by {
        if j == fs.len() {
            assert(fs[i].id != f.id);
        } else {
            assert(fs[i].id != fs[j].id);
        }
    }
    assert forall|i: int| 0 <= i < g.edges.len() implies crate::storage::has_fragment(
        more,
        (#[trigger] g.edges[i]).source,
    ) && crate::storage::has_fragment(more, g.edges[i].target) by {
        let e = g.edges[i];
        let a = choose|a: int| 0 <= a < fs.len() && (#[trigger] fs[a]).id == e.source;
        let b = choose|b: int| 0 <= b < fs.len() && (#[trigger] fs[b]).id == e.target;
        assert(crate::storage::has_fragment(fs, e.source));
        assert(crate::storage::has_fragment(fs, e.target));
        assert(more[a].id == e.source && more[b].id == e.target);
    }
    crate::storage::lemma_fragment_at(more, fs.len() as int);
    if crate::storage::has_fragment(fs, x) {
        let k = choose|k: int| 0 <= k < fs.len() && (#[trigger] fs[k]).id == x;
        crate::storage::lemma_fragment_at(fs, k);
        assert(more[k] == fs[k]);
        crate::storage::lemma_fragment_at(more, k);
    }
}

/// A fragment that is added without an edge is the child of nothing.
proof fn lemma_children_after_fragment(g: StorageView, f: FragmentView, p: FragmentId)
    requires
        is_anchored(g),
        !crate::storage::has_fragment(g.fragments, f.id),
    ensures
        crate::storage::children_of(StorageView { fragments: g.fragments.push(f), ..g }, p)
            == crate::storage::children_of(g, p),
{
    let fs = g.fragments;
    let more = fs.push(f);
    let keep = crate::storage::leads_to_child(fs, p);
    let keep_more = crate::storage::leads_to_child(more, p);
    assert forall|i: int| 0 <= i < g.edges.len() implies keep(#[trigger] g.edges[i]) == keep_more(
        g.edges[i],
    ) by {
        assert(crate::storage::has_fragment(fs, g.edges[i].target));
        lemma_added(g, f, g.edges[i].target);
    }
    crate::lists::lemma_filter_agrees(g.edges, keep, keep_more);
    let kept = g.edges.filter(keep);
    crate::lists::lemma_filter_members(g.edges, keep);
    assert forall|k: int| 0 <= k < kept.len() implies crate::storage::target_of(fs)(
        #[trigger] kept[k],
    ) == crate::storage::target_of(more)(kept[k]) by {
        assert(g.edges.contains(kept[k]));
        let i = choose|i: int| 0 <= i < g.edges.len() && g.edges[i] == kept[k];
        assert(crate::storage::has_fragment(fs, g.edges[i].target));
        lemma_added(g, f, kept[k].target);
    }
    assert(kept.map_values(crate::storage::target_of(fs)) == kept.map_values(
        crate::storage::target_of(more),
    ));
}

/// An edge that is added makes its target a child where it is hierarchical, leads
/// from the parent, and leads to an active fragment.
proof fn lemma_children_after_edge(g: StorageView, e: EdgeView, p: FragmentId)
    ensures
        ({
            let after = crate::storage::children_of(StorageView { edges: g.edges.push(e), ..g }, p);
            let before = crate::storage::children_of(g, p);
            after == if crate::storage::leads_to_child(g.fragments, p)(e) {
                before.push(crate::storage::target_of(g.fragments)(e))
            } else {
                before
            }
        }),
{
    let keep = crate::storage::leads_to_child(g.fragments, p);
    let to = crate::storage::target_of(g.fragments);
    crate::lists::lemma_filter_push(g.edges, keep, e);
    assert(g.edges.filter(keep).push(e).map_values(to) == g.edges.filter(keep).map_values(to).push(
        to(e),
    ));
}

/// An edge between fragments leaves a graph anchored.
proof fn lemma_linked(g: StorageView, e: EdgeView)
    requires
        is_anchored(g),
    ensures
        is_anchored(linking(g, e).graph),
{
    let more = g.edges.push(e);
    if crate::storage::insert_edge_result(g, e) is Ok {
        assert forall|i: int| 0 <= i < more.len() implies crate::storage::has_fragment(
            g.fragments,
            (#[trigger] more[i]).source,
        ) && crate::storage::has_fragment(g.fragments, more[i].target) by {
            if i < g.edges.len() {
                assert(more[i] == g.edges[i]);
            }
        }
    }
}

/// The first level of a tree that goes below a parent becomes its last child, and
/// the other levels do not.
proof fn lemma_levels_below(
    g: StorageView,
    p: FragmentId,
    levels: Seq<Seq<char>>,
    total: int,
    factor: int,
    session: Option<Seq<char>>,
    seeds: Seq<SeedView>,
)
    requires
        is_anchored(g),
        crate::storage::has_fragment(g.fragments, p),
        levels.len() > 0,
        seeds.len() == levels.len(),
        crate::store::storing_levels(
            g,
            Some(p),
            levels,
            total,
            factor,
            session,
            seeds,
        ).error is None,
    ensures
        ({
            let s = crate::store::storing_levels(
                g,
                Some(p),
                levels,
                total,
                factor,
                session,
                seeds,
            );
            let f = crate::store::level_fragment(
                levels[0],
                0,
                total,
                1,
                factor,
                session,
                seeds[0],
            );
            &&& is_anchored(s.graph)
            &&& s.last == Some(seeds.last().id)
            &&& seeds.last().id != p
            &&& crate::storage::has_fragment(s.graph.fragments, p)
            &&& crate::storage::has_fragment(s.graph.fragments, f.id)
            &&& crate::storage::has_fragment(s.graph.fragments, seeds.last().id)
            &&& crate::storage::children_of(s.graph, p) == crate::storage::children_of(g, p).push(f)
        }),
    decreases levels.len(),
{
    let fewer = levels.drop_last();
    let own = seeds.drop_last();
    let last = levels.len() - 1;
    let before = crate::store::storing_levels(g, Some(p), fewer, total, factor, session, own);
    if fewer.len() > 0 {
        lemma_levels_below(g, p, fewer, total, factor, session, own);
        assert(own[0] == seeds[0] && fewer[0] == levels[0]);
    }
    let h = before.graph;
    let f = crate::store::level_fragment(
        levels[last],
        last,
        total,
        1,
        factor,
        session,
        seeds[last],
    );
    let above = before.last->0;
    let e = stamped_edge(above, f.id, EdgeKind::Hierarchical, ONE, None, seeds[last].stamp);
    let mid = StorageView { fragments: h.fragments.push(f), ..h };
    lemma_added(h, f, p);
    lemma_children_after_fragment(h, f, p);
    lemma_children_after_edge(mid, e, p);
    lemma_linked(mid, e);
    assert(mid.fragments[h.fragments.len() as int] == f);
    assert(crate::storage::has_fragment(mid.fragments, f.id));
    let k = choose|k: int| 0 <= k < h.fragments.len() && (#[trigger] h.fragments[k]).id == p;
    assert(mid.fragments[k].id == p);
    if fewer.len() > 0 {
        let j = choose|j: int|
            0 <= j < h.fragments.len() && (#[trigger] h.fragments[j]).id == seeds[0].id;
        assert(mid.fragments[j].id == seeds[0].id);
    }
}

/// The root that a tree fits is in the graph.
proof fn lemma_close_root_exists(g: StorageView, embedding: Option<Seq<i32>>, threshold: i64)
    ensures
        crate::changes::close_root(g, embedding, threshold) matches Some(p)
            ==> crate::storage::has_fragment(g.fragments, p),
{
    if let Some(e) = embedding {
        let keep = crate::storage::embedded(Some(0));
        let fs = g.fragments.filter(keep);
        if fs.len() > 0 {
            let k = crate::changes::nearest(fs, e);
            crate::changes::law_nearest(fs, e, 0);
            crate::lists::lemma_filter_members(g.fragments, keep);
            assert(g.fragments.contains(fs[k]));
            let i = choose|i: int| 0 <= i < g.fragments.len() && g.fragments[i] == fs[k];
            assert(g.fragments[i].id == fs[k].id);
        }
    }
}

/// A tree that fits an existing root well becomes the last child of that root, at
/// depth one. Where the root had children, a temporal edge leads to the tree from
/// the last of them, so that temporal edges keep the reading order of siblings.
pub proof fn law_siblings_keep_their_order(
    g: StorageView,
    levels: Seq<Seq<char>>,
    session: Option<Seq<char>>,
    transcript: FragmentId,
    seeds: Seq<SeedView>,
    links: TreeStamps,
    p: FragmentId,
)
    requires
        crate::storage::is_sound(g),
        levels.len() > 0,
        seeds.len() == levels.len(),
        crate::changes::close_root(g, seeds[0].embedding, crate::store::HIGH_FIT) == Some(p),
        crate::store::storing_tree(g, levels, session, transcript, seeds, links).error is None,
    ensures
        ({
            let after = crate::store::storing_tree(
                g,
                levels,
                session,
                transcript,
                seeds,
                links,
            ).graph;
            let siblings = crate::storage::children_of(g, p);
            let factor = crate::store::novelty_factor(
                crate::changes::root_similarity(g, seeds[0].embedding),
            );
            let f = crate::store::level_fragment(
                levels[0],
                0,
                levels.len() as int,
                1,
                factor,
                session,
                seeds[0],
            );
            let stored = crate::store::storing_levels(
                g,
                Some(p),
                levels,
                levels.len() as int,
                factor,
                session,
                seeds,
            ).graph;
            &&& crate::storage::children_of(after, p) == siblings.push(f)
            &&& siblings.len() > 0 && !crate::storage::has_edge(stored.edges, links.sibling.id)
                ==> after.edges.contains(
                crate::store::sibling_edge(siblings.last().id, f.id, links.sibling),
            )
        }),
{
    let total = levels.len() as int;
    let factor = crate::store::novelty_factor(
        crate::changes::root_similarity(g, seeds[0].embedding),
    );
    let s = crate::store::storing_levels(g, Some(p), levels, total, factor, session, seeds);
    let siblings = crate::storage::children_of(g, p);
    let before = crate::store::last_child(g, Some(p));
    let id = seeds[0].id;
    lemma_close_root_exists(g, seeds[0].embedding, crate::store::HIGH_FIT);
    lemma_levels_below(g, p, levels, total, factor, session, seeds);
    let behind = crate::store::put_behind(s.graph, before, id, links.sibling);
    let leaf = stamped_edge(
        seeds.last().id,
        transcript,
        EdgeKind::Associative,
        ONE,
        None,
        links.leaf,
    );
    let after = linking(behind, leaf).graph;
    if let Some(b) = before {
        let e = crate::store::sibling_edge(b, id, links.sibling);
        lemma_children_after_edge(s.graph, e, p);
        if !crate::storage::has_edge(s.graph.edges, links.sibling.id) {
            assert(crate::storage::children_of(s.graph, p).drop_last() == siblings);
            lemma_last_child_stays(g, p, s.graph);
            assert(behind.edges == s.graph.edges.push(e));
            assert(behind.edges[s.graph.edges.len() as int] == e);
            assert(after.edges[s.graph.edges.len() as int] == e);
        }
    }
    lemma_children_after_edge(behind, leaf, p);
}

/// The last child of a parent is still there where more has been stored.
proof fn lemma_last_child_stays(g: StorageView, p: FragmentId, after: StorageView)
    requires
        crate::storage::children_of(g, p).len() > 0,
        is_anchored(after),
        crate::storage::children_of(after, p).len() > 0,
        crate::storage::children_of(after, p).drop_last() == crate::storage::children_of(g, p),
    ensures
        crate::storage::has_fragment(
            after.fragments,
            crate::storage::children_of(g, p).last().id,
        ),
{
    let fs = after.fragments;
    let kept = after.edges.filter(crate::storage::leads_to_child(fs, p));
    let k = crate::storage::children_of(g, p).len() - 1;
    let all = crate::storage::children_of(after, p);
    crate::lists::lemma_filter_members(after.edges, crate::storage::leads_to_child(fs, p));
    assert(all.drop_last()[k] == all[k]);
    assert(all[k] == crate::storage::target_of(fs)(kept[k]));
    assert(crate::storage::has_active(fs, kept[k].target));
    let f = crate::storage::fragment_of(fs, kept[k].target)->0;
    let i = choose|i: int| 0 <= i < fs.len() && (#[trigger] fs[i]).id == kept[k].target;
    assert(fs[i] == f);
}

/// No hierarchical edge leads to a fragment.
spec fn has_no_parent(g: StorageView, id: FragmentId) -> bool {
    forall|i: int|
        0 <= i < g.edges.len() ==> !crate::storage::leads_from_parent(id)(#[trigger] g.edges[i])
}

/// The first level of a tree of its own is a root, and stays without a parent.
proof fn lemma_levels_alone(
    g: StorageView,
    levels: Seq<Seq<char>>,
    total: int,
    factor: int,
    session: Option<Seq<char>>,
    seeds: Seq<SeedView>,
)
    requires
        is_anchored(g),
        levels.len() > 0,
        seeds.len() == levels.len(),
        crate::store::storing_levels(g, None, levels, total, factor, session, seeds).error is None,
    ensures
        ({
            let s = crate::store::storing_levels(g, None, levels, total, factor, session, seeds);
            let f = crate::store::level_fragment(
                levels[0],
                0,
                total,
                0,
                factor,
                session,
                seeds[0],
            );
            &&& is_anchored(s.graph)
            &&& s.last == Some(seeds.last().id)
            &&& crate::storage::has_fragment(s.graph.fragments, f.id)
            &&& crate::storage::fragment_of(s.graph.fragments, f.id) == Some(f)
            &&& has_no_parent(s.graph, f.id)
        }),
    decreases levels.len(),
{
    let fewer = levels.drop_last();
    let own = seeds.drop_last();
    let last = levels.len() - 1;
    let h = crate::store::storing_levels(g, None, fewer, total, factor, session, own).graph;
    let id = seeds[0].id;
    let f = crate::store::level_fragment(
        levels[last],
        last,
        total,
        0,
        factor,
        session,
        seeds[last],
    );
    let mid = StorageView { fragments: h.fragments.push(f), ..h };
    if fewer.len() > 0 {
        lemma_levels_alone(g, fewer, total, factor, session, own);
        assert(own[0] == seeds[0] && fewer[0] == levels[0]);
        lemma_added(h, f, id);
        let e = stamped_edge(
            own.last().id,
            f.id,
            EdgeKind::Hierarchical,
            ONE,
            None,
            seeds[last].stamp,
        );
        lemma_linked(mid, e);
        assert(f.id != id);
        let more = mid.edges.push(e);
        assert forall|i: int| 0 <= i < more.len() implies !crate::storage::leads_from_parent(id)(
            #[trigger] more[i],
        ) by {
            if i < h.edges.len() {
                assert(more[i] == h.edges[i]);
            }
        }
        let j = choose|j: int| 0 <= j < h.fragments.len() && (#[trigger] h.fragments[j]).id == id;
        assert(mid.fragments[j].id == id);
    } else {
        lemma_added(h, f, id);
        assert(mid.fragments[h.fragments.len() as int] == f);
        assert forall|i: int| 0 <= i < mid.edges.len() implies !crate::storage::leads_from_parent(
            id,
        )(#[trigger] mid.edges[i]) by {
            assert(crate::storage::has_fragment(h.fragments, h.edges[i].target));
        }
    }
}

/// A tree that fits no existing root becomes a tree of its own: its first level is a
/// root without a parent, with an importance that its novelty raises.
pub proof fn law_novel_trees_are_roots(
    g: StorageView,
    levels: Seq<Seq<char>>,
    session: Option<Seq<char>>,
    transcript: FragmentId,
    seeds: Seq<SeedView>,
    links: TreeStamps,
)
    requires
        crate::storage::is_sound(g),
        levels.len() > 0,
        seeds.len() == levels.len(),
        crate::changes::close_root(g, seeds[0].embedding, crate::store::HIGH_FIT) is None,
        crate::store::storing_tree(g, levels, session, transcript, seeds, links).error is None,
    ensures
        ({
            let after = crate::store::storing_tree(
                g,
                levels,
                session,
                transcript,
                seeds,
                links,
            ).graph;
            let factor = crate::store::novelty_factor(
                crate::changes::root_similarity(g, seeds[0].embedding),
            );
            let f = crate::store::level_fragment(
                levels[0],
                0,
                levels.len() as int,
                0,
                factor,
                session,
                seeds[0],
            );
            &&& f.depth == 0
            &&& crate::storage::fragment_of(after.fragments, f.id) == Some(f)
            &&& crate::storage::parent_of(after, f.id) is None
        }),
{
    let total = levels.len() as int;
    let factor = crate::store::novelty_factor(
        crate::changes::root_similarity(g, seeds[0].embedding),
    );
    let s = crate::store::storing_levels(g, None, levels, total, factor, session, seeds);
    lemma_levels_alone(g, levels, total, factor, session, seeds);
    let id = seeds[0].id;
    let after = crate::store::storing_tree(g, levels, session, transcript, seeds, links).graph;
    let up = crate::storage::leads_from_parent(id);
    assert forall|i: int| 0 <= i < after.edges.len() implies !up(#[trigger] after.edges[i]) by {
        if i < s.graph.edges.len() {
            assert(after.edges[i] == s.graph.edges[i]);
        }
    }
    crate::lists::lemma_filter_empty(after.edges, up);
}

} // verus!
