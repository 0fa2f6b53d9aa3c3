//! What storing knowledge without embeddings gives: trees of their own.
//!
//! Where no identifier is drawn twice, storing succeeds, and the laws say which
//! fragments and edges it adds and where they lie.

#[allow(unused_imports)]
use vstd::prelude::*;

#[allow(unused_imports)]
use crate::changes::{stamped_edge, Outcome, Stamp};
#[allow(unused_imports)]
use crate::edge::{EdgeKind, EdgeView};
#[allow(unused_imports)]
use crate::fixed::ONE;
#[allow(unused_imports)]
use crate::fragment::{FragmentId, FragmentView};
#[allow(unused_imports)]
use crate::ingestion::{RelationshipView, ResultView};
#[allow(unused_imports)]
use crate::storage::{StorageError, StorageView};
#[allow(unused_imports)]
use crate::store::{SeedView, Seeds, TreeStamps};

verus! {

// ---- what is added ----

/// The fragments of the first levels of a tree that has `total` of them: each
/// lies one deeper than the one before it, and novelty plays no part in its
/// importance.
pub open spec fn row_fragments(
    levels: Seq<Seq<char>>,
    total: int,
    session: Option<Seq<char>>,
    seeds: Seq<SeedView>,
) -> Seq<FragmentView> {
    Seq::new(
        levels.len(),
        |i: int|
            crate::store::seeded_fragment(
                levels[i],
                crate::store::as_depth(i),
                crate::store::base_importance(i, total),
                session,
                seeds[i],
            ),
    )
}

/// The edge from the level before a level of a tree to that level.
pub open spec fn level_edge(seeds: Seq<SeedView>, i: int) -> EdgeView {
    stamped_edge(
        seeds[i - 1].id,
        seeds[i].id,
        EdgeKind::Hierarchical,
        ONE,
        None,
        seeds[i].stamp,
    )
}

/// The edges between the levels of a tree.
pub open spec fn row_edges(seeds: Seq<SeedView>) -> Seq<EdgeView> {
    Seq::new(
        if seeds.len() > 0 {
            (seeds.len() - 1) as nat
        } else {
            0
        },
        |i: int| level_edge(seeds, i + 1),
    )
}

/// The link of the last level of a tree with the transcript.
pub open spec fn leaf_edge(seeds: Seq<SeedView>, transcript: FragmentId, leaf: Stamp) -> EdgeView {
    stamped_edge(seeds.last().id, transcript, EdgeKind::Associative, ONE, None, leaf)
}

/// The fragments of all trees.
pub open spec fn forest_fragments(
    trees: Seq<Seq<Seq<char>>>,
    session: Option<Seq<char>>,
    seeds: Seq<Seq<SeedView>>,
) -> Seq<FragmentView>
    decreases trees.len(),
{
    if trees.len() == 0 {
        Seq::empty()
    } else {
        forest_fragments(trees.drop_last(), session, seeds.drop_last()) + row_fragments(
            trees.last(),
            trees.last().len() as int,
            session,
            seeds.last(),
        )
    }
}

/// The edges of all trees.
pub open spec fn forest_edges(
    trees: Seq<Seq<Seq<char>>>,
    transcript: FragmentId,
    seeds: Seq<Seq<SeedView>>,
    links: Seq<TreeStamps>,
) -> Seq<EdgeView>
    decreases trees.len(),
{
    if trees.len() == 0 {
        Seq::empty()
    } else {
        let before = forest_edges(
            trees.drop_last(),
            transcript,
            seeds.drop_last(),
            links.drop_last(),
        );
        if trees.last().len() == 0 {
            before
        } else {
            (before + row_edges(seeds.last())).push(
                leaf_edge(seeds.last(), transcript, links.last().leaf),
            )
        }
    }
}

/// The links between related roots.
pub open spec fn relation_edges(
    relationships: Seq<RelationshipView>,
    roots: Seq<FragmentId>,
    stamps: Seq<Stamp>,
) -> Seq<EdgeView>
    decreases relationships.len(),
{
    if relationships.len() == 0 {
        Seq::empty()
    } else {
        let before = relation_edges(relationships.drop_last(), roots, stamps.drop_last());
        let r = relationships.last();
        if 0 <= r.topic_a < roots.len() && 0 <= r.topic_b < roots.len() {
            before.push(
                stamped_edge(
                    roots[r.topic_a],
                    roots[r.topic_b],
                    EdgeKind::Associative,
                    ONE,
                    Some(r.description),
                    stamps.last(),
                ),
            )
        } else {
            before
        }
    }
}

/// The graph with all that a result holds: the transcript, the trees, and the
/// links between them.
pub open spec fn with_trees(
    g: StorageView,
    result: ResultView,
    session: Option<Seq<char>>,
    seeds: Seeds,
) -> StorageView {
    let lists = crate::store::seed_lists(seeds.trees@);
    StorageView {
        fragments: g.fragments.push(
            crate::store::transcript_fragment(result, session, seeds.transcript@),
        ) + forest_fragments(result.trees, session, lists),
        edges: g.edges + forest_edges(result.trees, seeds.transcript.id, lists, seeds.links@)
            + relation_edges(
            result.relationships,
            crate::store::tree_roots(result.trees, lists),
            seeds.relationships@,
        ),
        ..g
    }
}

/// No identifier is drawn twice, or is in use already.
pub open spec fn no_clash(g: StorageView) -> bool {
    crate::storage::unique_fragments(g.fragments) && crate::storage::unique_edges(g.edges)
}

// ---- storing succeeds ----

/// The beginning of a list without clashes has none.
proof fn lemma_beginning_unique(fs: Seq<FragmentView>, more: Seq<FragmentView>)
    requires
        crate::storage::unique_fragments(fs + more),
    ensures
        crate::storage::unique_fragments(fs),
        more.len() > 0 ==> !crate::storage::has_fragment(fs, more[0].id),
{
    let all = fs + more;
    assert forall|i: int, j: int| 0 <= i < j < fs.len() implies (#[trigger] fs[i]).id != (
    #[trigger] fs[j]).id by {
        assert(all[i].id != all[j].id);
    }
    if more.len() > 0 && crate::storage::has_fragment(fs, more[0].id) {
        let k = choose|k: int| 0 <= k < fs.len() && (#[trigger] fs[k]).id == more[0].id;
        assert(all[k].id != all[fs.len() as int].id);
    }
}

/// The same of edges.
proof fn lemma_beginning_unique_edges(es: Seq<EdgeView>, more: Seq<EdgeView>)
    requires
        crate::storage::unique_edges(es + more),
    ensures
        crate::storage::unique_edges(es),
        more.len() > 0 ==> !crate::storage::has_edge(es, more[0].id),
{
    let all = es + more;
    assert forall|i: int, j: int| 0 <= i < j < es.len() implies (#[trigger] es[i]).id != (
    #[trigger] es[j]).id by {
        assert(all[i].id != all[j].id);
    }
    if more.len() > 0 && crate::storage::has_edge(es, more[0].id) {
        let k = choose|k: int| 0 <= k < es.len() && (#[trigger] es[k]).id == more[0].id;
        assert(all[k].id != all[es.len() as int].id);
    }
}

proof fn lemma_row_stored(
    g: StorageView,
    levels: Seq<Seq<char>>,
    total: int,
    session: Option<Seq<char>>,
    seeds: Seq<SeedView>,
)
    requires
        levels.len() == seeds.len(),
        crate::storage::unique_fragments(
            g.fragments + row_fragments(levels, total, session, seeds),
        ),
        crate::storage::unique_edges(g.edges + row_edges(seeds)),
    ensures
        ({
            let s = crate::store::storing_levels(
                g,
                None,
                levels,
                total,
                ONE as int,
                session,
                seeds,
            );
            &&& s.error is None
            &&& s.graph == (StorageView {
                fragments: g.fragments + row_fragments(levels, total, session, seeds),
                edges: g.edges + row_edges(seeds),
                ..g
            })
            &&& s.last == if levels.len() == 0 {
                None
            } else {
                Some(seeds.last().id)
            }
        }),
    decreases levels.len(),
{
    let row = row_fragments(levels, total, session, seeds);
    if levels.len() == 0 {
        assert(g.fragments + row == g.fragments);
        assert(g.edges + row_edges(seeds) == g.edges);
    } else {
        let fewer = levels.drop_last();
        let own = seeds.drop_last();
        let last = levels.len() - 1;
        let front = row_fragments(fewer, total, session, own);
        let f = row[last];
        assert(row == front.push(f));
        assert((g.fragments + front) + seq![f] == g.fragments + row);
        lemma_beginning_unique(g.fragments + front, seq![f]);
        let edges = row_edges(own);
        if fewer.len() > 0 {
            assert(row_edges(seeds) == edges.push(level_edge(seeds, last)));
            assert((g.edges + edges) + seq![level_edge(seeds, last)] == g.edges + row_edges(seeds));
            lemma_beginning_unique_edges(g.edges + edges, seq![level_edge(seeds, last)]);
        } else {
            assert(row_edges(seeds) == edges);
        }
        lemma_row_stored(g, fewer, total, session, own);
        let b = crate::store::base_importance(last, total);
        assert(crate::fixed::product(b, ONE as int) == b) by {
            assert(b * ONE / (ONE as int) == b);
        }
        let s = crate::store::storing_levels(g, None, fewer, total, ONE as int, session, own);
        assert(crate::store::level_fragment(
            levels.last(),
            last,
            total,
            0,
            ONE as int,
            session,
            seeds.last(),
        ) == f);
        let pushed = s.graph.fragments.push(f);
        assert(pushed == g.fragments + row);
        if fewer.len() > 0 {
            assert(own.last() == seeds[last - 1]);
            assert(pushed[g.fragments.len() + last].id == f.id);
            assert(pushed[g.fragments.len() + last - 1] == row[last - 1]);
            assert(row[last - 1].id == seeds[last - 1].id);
            assert(s.graph.edges.push(level_edge(seeds, last)) == g.edges + row_edges(seeds));
        }
    }
}

proof fn lemma_forest_stored(
    g: StorageView,
    trees: Seq<Seq<Seq<char>>>,
    session: Option<Seq<char>>,
    transcript: FragmentId,
    seeds: Seq<Seq<SeedView>>,
    links: Seq<TreeStamps>,
)
    requires
        seeds.len() == trees.len(),
        links.len() == trees.len(),
        forall|t: int| 0 <= t < trees.len() ==> (#[trigger] seeds[t]).len() == trees[t].len(),
        forall|t: int|
            0 <= t < trees.len() && trees[t].len() > 0 ==> (#[trigger] seeds[t])[0].embedding
                is None,
        crate::storage::has_fragment(g.fragments, transcript),
        crate::storage::unique_fragments(
            g.fragments + forest_fragments(trees, session, seeds),
        ),
        crate::storage::unique_edges(g.edges + forest_edges(trees, transcript, seeds, links)),
    ensures
        ({
            let s = crate::store::storing_trees(g, trees, session, transcript, seeds, links);
            &&& s.error is None
            &&& s.graph == (StorageView {
                fragments: g.fragments + forest_fragments(trees, session, seeds),
                edges: g.edges + forest_edges(trees, transcript, seeds, links),
                ..g
            })
        }),
    decreases trees.len(),
{
    if trees.len() == 0 {
        assert(g.fragments + forest_fragments(trees, session, seeds) == g.fragments);
        assert(g.edges + forest_edges(trees, transcript, seeds, links) == g.edges);
    } else {
        let fewer = trees.drop_last();
        let fewer_seeds = seeds.drop_last();
        let fewer_links = links.drop_last();
        let levels = trees.last();
        let own = seeds.last();
        let front = forest_fragments(fewer, session, fewer_seeds);
        let row = row_fragments(levels, levels.len() as int, session, own);
        let front_edges = forest_edges(fewer, transcript, fewer_seeds, fewer_links);
        let fs = g.fragments + front;
        let es = g.edges + front_edges;
        assert(fs + row == g.fragments + forest_fragments(trees, session, seeds));
        lemma_beginning_unique(fs, row);
        let all = forest_edges(trees, transcript, seeds, links);
        if levels.len() == 0 {
            assert(fs + row == fs);
            lemma_forest_stored(g, fewer, session, transcript, fewer_seeds, fewer_links);
        } else {
            assert(own == seeds[trees.len() - 1]);
            let link = leaf_edge(own, transcript, links.last().leaf);
            assert((es + row_edges(own)) + seq![link] == g.edges + all);
            lemma_beginning_unique_edges(es + row_edges(own), seq![link]);
            lemma_beginning_unique_edges(es, row_edges(own));
            lemma_forest_stored(g, fewer, session, transcript, fewer_seeds, fewer_links);
            let s = crate::store::storing_trees(
                g,
                fewer,
                session,
                transcript,
                fewer_seeds,
                fewer_links,
            );
            lemma_row_stored(s.graph, levels, levels.len() as int, session, own);
            let k = choose|k: int|
                0 <= k < g.fragments.len() && (#[trigger] g.fragments[k]).id == transcript;
            assert((fs + row)[k].id == transcript);
            assert((fs + row)[fs.len() + levels.len() - 1].id == own.last().id);
            assert((es + row_edges(own)).push(link) == g.edges + all);
        }
    }
}

/// The first level of each tree is among the fragments of all trees.
proof fn lemma_roots_stored(
    trees: Seq<Seq<Seq<char>>>,
    session: Option<Seq<char>>,
    seeds: Seq<Seq<SeedView>>,
    k: int,
)
    requires
        seeds.len() == trees.len(),
        0 <= k < crate::store::tree_roots(trees, seeds).len(),
    ensures
        crate::storage::has_fragment(
            forest_fragments(trees, session, seeds),
            crate::store::tree_roots(trees, seeds)[k],
        ),
    decreases trees.len(),
{
    let fewer = trees.drop_last();
    let fewer_seeds = seeds.drop_last();
    let front = forest_fragments(fewer, session, fewer_seeds);
    let all = forest_fragments(trees, session, seeds);
    let before = crate::store::tree_roots(fewer, fewer_seeds);
    if k < before.len() {
        lemma_roots_stored(fewer, session, fewer_seeds, k);
        let i = choose|i: int| 0 <= i < front.len() && (#[trigger] front[i]).id == before[k];
        assert(all[i].id == before[k]);
    } else {
        assert(all[front.len() as int].id == seeds.last()[0].id);
    }
}

proof fn lemma_relations_stored(
    g: StorageView,
    relationships: Seq<RelationshipView>,
    roots: Seq<FragmentId>,
    stamps: Seq<Stamp>,
)
    requires
        stamps.len() == relationships.len(),
        forall|k: int|
            0 <= k < roots.len() ==> crate::storage::has_fragment(
                g.fragments,
                #[trigger] roots[k],
            ),
        crate::storage::unique_edges(g.edges + relation_edges(relationships, roots, stamps)),
    ensures
        crate::store::relating(g, relationships, roots, stamps) == (StorageView {
            edges: g.edges + relation_edges(relationships, roots, stamps),
            ..g
        }),
    decreases relationships.len(),
{
    let all = relation_edges(relationships, roots, stamps);
    if relationships.len() == 0 {
        assert(g.edges + all == g.edges);
    } else {
        let front = relation_edges(relationships.drop_last(), roots, stamps.drop_last());
        if front.len() < all.len() {
            assert((g.edges + front) + seq![all.last()] == g.edges + all);
            lemma_beginning_unique_edges(g.edges + front, seq![all.last()]);
            assert((g.edges + front).push(all.last()) == g.edges + all);
        }
        lemma_relations_stored(g, relationships.drop_last(), roots, stamps.drop_last());
    }
}

// ---- laws ----

/// Storing without embeddings succeeds where no identifier clashes with another,
/// and adds the transcript, each tree as a tree of its own, and their links:
/// nothing else. Each level lies one deeper than the one before it, with an
/// importance of 0.9 for the root, 0.5 for the full text below it, and 0.7 for
/// what lies between; the transcript has 0.1 and lies deeper than all levels.
/// All of them name the session.
pub proof fn law_stored_without_embeddings(
    g: StorageView,
    result: ResultView,
    session: Option<Seq<char>>,
    seeds: Seeds,
)
    requires
        result.trees.len() > 0,
        crate::store::seeds_fit(result, seeds),
        crate::store::seeds_drawn(seeds),
        no_clash(with_trees(g, result, session, seeds)),
    ensures
        crate::store::storing_result(g, result, session, seeds) == (Outcome {
            graph: with_trees(g, result, session, seeds),
            result: Ok::<nat, StorageError>(1 + crate::store::level_count(result.trees)),
        }),
{
    let lists = crate::store::seed_lists(seeds.trees@);
    let t = crate::store::transcript_fragment(result, session, seeds.transcript@);
    let roots = crate::store::tree_roots(result.trees, lists);
    let forest = forest_fragments(result.trees, session, lists);
    let edges = forest_edges(result.trees, t.id, lists, seeds.links@);
    let relations = relation_edges(result.relationships, roots, seeds.relationships@);
    let whole = with_trees(g, result, session, seeds);
    let first = StorageView { fragments: g.fragments.push(t), ..g };
    assert(first.fragments + forest == whole.fragments);
    assert(g.fragments + (seq![t] + forest) == whole.fragments);
    lemma_beginning_unique(g.fragments, seq![t] + forest);
    lemma_beginning_unique_edges(g.edges + edges, relations);
    assert(first.fragments[g.fragments.len() as int].id == t.id);
    assert forall|k: int| 0 <= k < result.trees.len() && result.trees[k].len() > 0 implies (
    #[trigger] lists[k])[0].embedding is None by {
        assert(crate::store::is_drawn_seed(seeds.trees@[k]@[0]@));
    }
    lemma_forest_stored(first, result.trees, session, t.id, lists, seeds.links@);
    let s = crate::store::storing_trees(
        first,
        result.trees,
        session,
        t.id,
        lists,
        seeds.links@,
    );
    assert forall|k: int| 0 <= k < roots.len() implies crate::storage::has_fragment(
        s.graph.fragments,
        #[trigger] roots[k],
    ) by {
        lemma_roots_stored(result.trees, session, lists, k);
        let i = choose|i: int| 0 <= i < forest.len() && (#[trigger] forest[i]).id == roots[k];
        assert(s.graph.fragments[first.fragments.len() + i].id == roots[k]);
    }
    lemma_relations_stored(s.graph, result.relationships, roots, seeds.relationships@);
}

// ---- places ----

/// Where the first level of a tree lies among the fragments of all trees.
pub open spec fn place_of(trees: Seq<Seq<Seq<char>>>, t: int) -> int {
    crate::store::level_count(trees.take(t)) as int
}

/// An edge from one level of a tree to the next.
pub open spec fn is_level_edge(seeds: Seq<Seq<SeedView>>, e: EdgeView) -> bool {
    exists|t: int, i: int|
        0 <= t < seeds.len() && 0 < i < seeds[t].len() && e == #[trigger] level_edge(seeds[t], i)
}

proof fn lemma_place(
    trees: Seq<Seq<Seq<char>>>,
    session: Option<Seq<char>>,
    seeds: Seq<Seq<SeedView>>,
    t: int,
    i: int,
)
    requires
        seeds.len() == trees.len(),
        0 <= t < trees.len(),
        0 <= i < trees[t].len(),
    ensures
        0 <= place_of(trees, t) + i < forest_fragments(trees, session, seeds).len(),
        forest_fragments(trees, session, seeds)[place_of(trees, t) + i] == row_fragments(
            trees[t],
            trees[t].len() as int,
            session,
            seeds[t],
        )[i],
    decreases trees.len(),
{
    let fewer = trees.drop_last();
    let fewer_seeds = seeds.drop_last();
    lemma_forest_counted(fewer, session, fewer_seeds);
    if t < fewer.len() {
        lemma_place(fewer, session, fewer_seeds, t, i);
        assert(fewer.take(t) == trees.take(t));
    } else {
        assert(trees.take(t) == fewer);
    }
}

proof fn lemma_forest_counted(
    trees: Seq<Seq<Seq<char>>>,
    session: Option<Seq<char>>,
    seeds: Seq<Seq<SeedView>>,
)
    ensures
        forest_fragments(trees, session, seeds).len() == crate::store::level_count(trees),
    decreases trees.len(),
{
    if trees.len() > 0 {
        lemma_forest_counted(trees.drop_last(), session, seeds.drop_last());
    }
}

/// The trees lie one behind the other.
proof fn lemma_places_in_order(trees: Seq<Seq<Seq<char>>>, t: int, u: int)
    requires
        0 <= t < u < trees.len(),
    ensures
        place_of(trees, t) + trees[t].len() <= place_of(trees, u),
    decreases u,
{
    let up_to = trees.take(u);
    assert(up_to.drop_last() == trees.take(u - 1));
    assert(up_to.last() == trees[u - 1]);
    if t < u - 1 {
        lemma_places_in_order(trees, t, u - 1);
    }
}

proof fn lemma_forest_edges(
    trees: Seq<Seq<Seq<char>>>,
    transcript: FragmentId,
    seeds: Seq<Seq<SeedView>>,
    links: Seq<TreeStamps>,
)
    requires
        seeds.len() == trees.len(),
        forall|t: int| 0 <= t < trees.len() ==> (#[trigger] seeds[t]).len() == trees[t].len(),
    ensures
        ({
            let es = forest_edges(trees, transcript, seeds, links);
            &&& forall|j: int|
                0 <= j < es.len() && (#[trigger] es[j]).kind == EdgeKind::Hierarchical
                    ==> is_level_edge(seeds, es[j])
            &&& forall|t: int, i: int|
                0 <= t < seeds.len() && 0 < i < seeds[t].len() ==> es.contains(
                    #[trigger] level_edge(seeds[t], i),
                )
        }),
    decreases trees.len(),
{
    let es = forest_edges(trees, transcript, seeds, links);
    if trees.len() > 0 {
        let fewer_seeds = seeds.drop_last();
        let own = seeds.last();
        let front = forest_edges(trees.drop_last(), transcript, fewer_seeds, links.drop_last());
        let row = row_edges(own);
        let n = trees.len() - 1;
        lemma_forest_edges(trees.drop_last(), transcript, fewer_seeds, links.drop_last());
        assert forall|j: int|
            0 <= j < es.len() && (#[trigger] es[j]).kind
                == EdgeKind::Hierarchical implies is_level_edge(seeds, es[j]) by {
            if j < front.len() {
                assert(front[j] == es[j]);
                let (t, i) = choose|t: int, i: int|
                    0 <= t < fewer_seeds.len() && 0 < i < fewer_seeds[t].len() && es[j]
                        == #[trigger] level_edge(fewer_seeds[t], i);
                assert(es[j] == level_edge(seeds[t], i));
            } else if j < front.len() + row.len() {
                assert(es[j] == level_edge(seeds[n], j - front.len() + 1));
            }
        }
        assert forall|t: int, i: int|
            0 <= t < seeds.len() && 0 < i < seeds[t].len() implies es.contains(
            #[trigger] level_edge(seeds[t], i),
        ) by {
            if t < n {
                assert(front.contains(level_edge(fewer_seeds[t], i)));
                let j = choose|j: int|
                    0 <= j < front.len() && front[j] == level_edge(fewer_seeds[t], i);
                assert(es[j] == level_edge(seeds[t], i));
            } else {
                assert(es[front.len() + i - 1] == row[i - 1]);
            }
        }
    }
}

proof fn lemma_relations_associate(
    relationships: Seq<RelationshipView>,
    roots: Seq<FragmentId>,
    stamps: Seq<Stamp>,
)
    ensures
        forall|j: int|
            0 <= j < relation_edges(relationships, roots, stamps).len() ==> (
            #[trigger] relation_edges(relationships, roots, stamps)[j]).kind
                == EdgeKind::Associative,
    decreases relationships.len(),
{
    if relationships.len() > 0 {
        lemma_relations_associate(relationships.drop_last(), roots, stamps.drop_last());
    }
}

/// A hierarchical edge of the graph with the trees is an old one, or leads from a
/// level of a tree to the next; and all of those are there.
proof fn lemma_hierarchy(
    g: StorageView,
    result: ResultView,
    session: Option<Seq<char>>,
    seeds: Seeds,
)
    requires
        crate::store::seeds_fit(result, seeds),
    ensures
        ({
            let es = with_trees(g, result, session, seeds).edges;
            let lists = crate::store::seed_lists(seeds.trees@);
            &&& forall|j: int|
                0 <= j < es.len() && (#[trigger] es[j]).kind == EdgeKind::Hierarchical ==> {
                    ||| j < g.edges.len() && es[j] == g.edges[j]
                    ||| is_level_edge(lists, es[j])
                }
            &&& forall|t: int, i: int|
                0 <= t < lists.len() && 0 < i < lists[t].len() ==> es.contains(
                    #[trigger] level_edge(lists[t], i),
                )
        }),
{
    let lists = crate::store::seed_lists(seeds.trees@);
    let es = with_trees(g, result, session, seeds).edges;
    let forest = forest_edges(result.trees, seeds.transcript.id, lists, seeds.links@);
    let roots = crate::store::tree_roots(result.trees, lists);
    let relations = relation_edges(result.relationships, roots, seeds.relationships@);
    let n = g.edges.len() as int;
    lemma_forest_edges(result.trees, seeds.transcript.id, lists, seeds.links@);
    lemma_relations_associate(result.relationships, roots, seeds.relationships@);
    assert forall|j: int|
        0 <= j < es.len() && (#[trigger] es[j]).kind == EdgeKind::Hierarchical implies {
        ||| j < g.edges.len() && es[j] == g.edges[j]
        ||| is_level_edge(lists, es[j])
    } by {
        if n <= j < n + forest.len() {
            assert(es[j] == forest[j - n]);
        } else if j >= n {
            assert(es[j] == relations[j - n - forest.len()]);
        }
    }
    assert forall|t: int, i: int|
        0 <= t < lists.len() && 0 < i < lists[t].len() implies es.contains(
        #[trigger] level_edge(lists[t], i),
    ) by {
        assert(forest.contains(level_edge(lists[t], i)));
        let j = choose|j: int| 0 <= j < forest.len() && forest[j] == level_edge(lists[t], i);
        assert(es[n + j] == forest[j]);
    }
}

/// Where a level lies in the graph with the trees.
pub open spec fn place_in(g: StorageView, result: ResultView, t: int, i: int) -> int {
    g.fragments.len() + 1 + place_of(result.trees, t) + i
}

/// The fragment of a level of a tree.
pub open spec fn level_of(
    result: ResultView,
    session: Option<Seq<char>>,
    seeds: Seeds,
    t: int,
    i: int,
) -> FragmentView {
    row_fragments(
        result.trees[t],
        result.trees[t].len() as int,
        session,
        crate::store::seed_views(seeds.trees@[t]@),
    )[i]
}

proof fn lemma_level_at(
    g: StorageView,
    result: ResultView,
    session: Option<Seq<char>>,
    seeds: Seeds,
    t: int,
    i: int,
)
    requires
        crate::store::seeds_fit(result, seeds),
        0 <= t < result.trees.len(),
        0 <= i < result.trees[t].len(),
    ensures
        ({
            let fs = with_trees(g, result, session, seeds).fragments;
            let k = place_in(g, result, t, i);
            g.fragments.len() < k < fs.len() && fs[k] == level_of(result, session, seeds, t, i)
        }),
{
    lemma_place(result.trees, session, crate::store::seed_lists(seeds.trees@), t, i);
}

/// Levels with one identifier are the same.
proof fn lemma_same_level(
    g: StorageView,
    result: ResultView,
    session: Option<Seq<char>>,
    seeds: Seeds,
    t: int,
    i: int,
    u: int,
    j: int,
)
    requires
        crate::store::seeds_fit(result, seeds),
        no_clash(with_trees(g, result, session, seeds)),
        0 <= t < result.trees.len(),
        0 <= i < result.trees[t].len(),
        0 <= u < result.trees.len(),
        0 <= j < result.trees[u].len(),
        seeds.trees@[t]@[i].id == seeds.trees@[u]@[j].id,
    ensures
        t == u && i == j,
{
    lemma_level_at(g, result, session, seeds, t, i);
    lemma_level_at(g, result, session, seeds, u, j);
    if t < u {
        lemma_places_in_order(result.trees, t, u);
    }
    if u < t {
        lemma_places_in_order(result.trees, u, t);
    }
    let fs = with_trees(g, result, session, seeds).fragments;
    let a = place_in(g, result, t, i);
    let b = place_in(g, result, u, j);
    assert(fs[a].id == fs[b].id);
}

/// A level is the child of the level before it, and of nothing else; the first
/// level has no parent. The next level is its only child, and the last one has
/// none.
pub proof fn law_levels_follow_each_other(
    g: StorageView,
    result: ResultView,
    session: Option<Seq<char>>,
    seeds: Seeds,
    t: int,
    i: int,
)
    requires
        crate::storage::is_sound(g),
        crate::store::seeds_fit(result, seeds),
        no_clash(with_trees(g, result, session, seeds)),
        0 <= t < result.trees.len(),
        0 <= i < result.trees[t].len(),
    ensures
        ({
            let after = with_trees(g, result, session, seeds);
            let f = level_of(result, session, seeds, t, i);
            &&& crate::storage::fragment_of(after.fragments, f.id) == Some(f)
            &&& crate::storage::parent_of(after, f.id) == if i == 0 {
                None
            } else {
                Some(level_of(result, session, seeds, t, i - 1))
            }
            &&& crate::storage::children_of(after, f.id) == if i == result.trees[t].len() - 1 {
                Seq::empty()
            } else {
                seq![level_of(result, session, seeds, t, i + 1)]
            }
        }),
{
    let after = with_trees(g, result, session, seeds);
    let f = level_of(result, session, seeds, t, i);
    lemma_level_at(g, result, session, seeds, t, i);
    crate::storage::lemma_fragment_at(after.fragments, place_in(g, result, t, i));
    lemma_parent_of_level(g, result, session, seeds, t, i);
    lemma_children_of_level(g, result, session, seeds, t, i);
}

/// No old edge touches a level of a tree.
proof fn lemma_old_edges_apart(
    g: StorageView,
    result: ResultView,
    session: Option<Seq<char>>,
    seeds: Seeds,
    k: int,
    j: int,
)
    requires
        crate::storage::is_sound(g),
        no_clash(with_trees(g, result, session, seeds)),
        g.fragments.len() <= k < with_trees(g, result, session, seeds).fragments.len(),
        0 <= j < g.edges.len(),
    ensures
        g.edges[j].source != with_trees(g, result, session, seeds).fragments[k].id,
        g.edges[j].target != with_trees(g, result, session, seeds).fragments[k].id,
{
    let fs = with_trees(g, result, session, seeds).fragments;
    let e = g.edges[j];
    let a = choose|a: int| 0 <= a < g.fragments.len() && (#[trigger] g.fragments[a]).id == e.source;
    let b = choose|b: int| 0 <= b < g.fragments.len() && (#[trigger] g.fragments[b]).id == e.target;
    assert(crate::storage::has_fragment(g.fragments, e.source));
    assert(crate::storage::has_fragment(g.fragments, e.target));
    assert(fs[a] == g.fragments[a] && fs[b] == g.fragments[b]);
    assert(fs[a].id != fs[k].id && fs[b].id != fs[k].id);
}

proof fn lemma_parent_of_level(
    g: StorageView,
    result: ResultView,
    session: Option<Seq<char>>,
    seeds: Seeds,
    t: int,
    i: int,
)
    requires
        crate::storage::is_sound(g),
        crate::store::seeds_fit(result, seeds),
        no_clash(with_trees(g, result, session, seeds)),
        0 <= t < result.trees.len(),
        0 <= i < result.trees[t].len(),
    ensures
        crate::storage::parent_of(
            with_trees(g, result, session, seeds),
            level_of(result, session, seeds, t, i).id,
        ) == if i == 0 {
            None
        } else {
            Some(level_of(result, session, seeds, t, i - 1))
        },
{
    let after = with_trees(g, result, session, seeds);
    let es = after.edges;
    let lists = crate::store::seed_lists(seeds.trees@);
    let f = level_of(result, session, seeds, t, i);
    let up = crate::storage::leads_from_parent(f.id);
    lemma_level_at(g, result, session, seeds, t, i);
    lemma_hierarchy(g, result, session, seeds);
    assert forall|j: int| 0 <= j < es.len() && up(#[trigger] es[j]) implies i > 0 && es[j]
        == level_edge(lists[t], i) by {
        if j < g.edges.len() && es[j] == g.edges[j] {
            lemma_old_edges_apart(g, result, session, seeds, place_in(g, result, t, i), j);
        } else {
            let (u, k) = choose|u: int, k: int|
                0 <= u < lists.len() && 0 < k < lists[u].len() && es[j] == #[trigger] level_edge(
                    lists[u],
                    k,
                );
            lemma_same_level(g, result, session, seeds, u, k, t, i);
        }
    }
    if i == 0 {
        crate::lists::lemma_filter_empty(es, up);
    } else {
        assert(es.contains(level_edge(lists[t], i)));
        let k = choose|k: int| 0 <= k < es.len() && es[k] == level_edge(lists[t], i);
        assert(up(es[k]));
        assert forall|j: int| 0 <= j < es.len() implies (up(#[trigger] es[j]) <==> j == k) by {
            if up(es[j]) {
                assert(es[j].id == es[k].id);
            }
        }
        crate::lists::lemma_filter_one(es, up, k);
        lemma_level_at(g, result, session, seeds, t, i - 1);
        crate::storage::lemma_fragment_at(after.fragments, place_in(g, result, t, i - 1));
    }
}

proof fn lemma_children_of_level(
    g: StorageView,
    result: ResultView,
    session: Option<Seq<char>>,
    seeds: Seeds,
    t: int,
    i: int,
)
    requires
        crate::storage::is_sound(g),
        crate::store::seeds_fit(result, seeds),
        no_clash(with_trees(g, result, session, seeds)),
        0 <= t < result.trees.len(),
        0 <= i < result.trees[t].len(),
    ensures
        crate::storage::children_of(
            with_trees(g, result, session, seeds),
            level_of(result, session, seeds, t, i).id,
        ) == if i == result.trees[t].len() - 1 {
            Seq::empty()
        } else {
            seq![level_of(result, session, seeds, t, i + 1)]
        },
{
    let after = with_trees(g, result, session, seeds);
    let es = after.edges;
    let lists = crate::store::seed_lists(seeds.trees@);
    let f = level_of(result, session, seeds, t, i);
    let down = crate::storage::leads_to_child(after.fragments, f.id);
    lemma_level_at(g, result, session, seeds, t, i);
    lemma_hierarchy(g, result, session, seeds);
    assert forall|j: int| 0 <= j < es.len() && down(#[trigger] es[j]) implies i + 1
        < result.trees[t].len() && es[j] == level_edge(lists[t], i + 1) by {
        if j < g.edges.len() && es[j] == g.edges[j] {
            lemma_old_edges_apart(g, result, session, seeds, place_in(g, result, t, i), j);
        } else {
            let (u, k) = choose|u: int, k: int|
                0 <= u < lists.len() && 0 < k < lists[u].len() && es[j] == #[trigger] level_edge(
                    lists[u],
                    k,
                );
            lemma_same_level(g, result, session, seeds, u, k - 1, t, i);
        }
    }
    if i == result.trees[t].len() - 1 {
        crate::lists::lemma_filter_empty(es, down);
        assert(crate::storage::children_of(after, f.id) == Seq::<FragmentView>::empty());
    } else {
        let next = level_of(result, session, seeds, t, i + 1);
        lemma_level_at(g, result, session, seeds, t, i + 1);
        crate::storage::lemma_fragment_at(after.fragments, place_in(g, result, t, i + 1));
        assert(es.contains(level_edge(lists[t], i + 1)));
        let k = choose|k: int| 0 <= k < es.len() && es[k] == level_edge(lists[t], i + 1);
        assert(down(es[k]));
        assert forall|j: int| 0 <= j < es.len() implies (down(#[trigger] es[j]) <==> j == k) by {
            if down(es[j]) {
                assert(es[j].id == es[k].id);
            }
        }
        crate::lists::lemma_filter_one(es, down, k);
        assert(crate::storage::children_of(after, f.id) == seq![next]);
    }
}

/// The transcript has neither a parent nor children.
pub proof fn law_transcript_lies_alone(
    g: StorageView,
    result: ResultView,
    session: Option<Seq<char>>,
    seeds: Seeds,
)
    requires
        crate::storage::is_sound(g),
        crate::store::seeds_fit(result, seeds),
        no_clash(with_trees(g, result, session, seeds)),
    ensures
        ({
            let after = with_trees(g, result, session, seeds);
            let f = crate::store::transcript_fragment(result, session, seeds.transcript@);
            &&& crate::storage::fragment_of(after.fragments, f.id) == Some(f)
            &&& crate::storage::parent_of(after, f.id) is None
            &&& crate::storage::children_of(after, f.id).len() == 0
        }),
{
    let after = with_trees(g, result, session, seeds);
    let fs = after.fragments;
    let es = after.edges;
    let lists = crate::store::seed_lists(seeds.trees@);
    let f = crate::store::transcript_fragment(result, session, seeds.transcript@);
    let n = g.fragments.len() as int;
    let up = crate::storage::leads_from_parent(f.id);
    let down = crate::storage::leads_to_child(fs, f.id);
    assert(fs[n] == f);
    crate::storage::lemma_fragment_at(fs, n);
    lemma_hierarchy(g, result, session, seeds);
    assert forall|j: int| 0 <= j < es.len() implies !up(#[trigger] es[j]) && !down(es[j]) by {
        if es[j].kind == EdgeKind::Hierarchical {
            if j < g.edges.len() && es[j] == g.edges[j] {
                lemma_old_edges_apart(g, result, session, seeds, n, j);
            } else {
                let (u, k) = choose|u: int, k: int|
                    0 <= u < lists.len() && 0 < k < lists[u].len() && es[j]
                        == #[trigger] level_edge(lists[u], k);
                lemma_level_at(g, result, session, seeds, u, k);
                lemma_level_at(g, result, session, seeds, u, k - 1);
                assert(fs[n].id != fs[place_in(g, result, u, k)].id);
                assert(fs[n].id != fs[place_in(g, result, u, k - 1)].id);
            }
        }
    }
    crate::lists::lemma_filter_empty(es, up);
    crate::lists::lemma_filter_empty(es, down);
}

} // verus!
