//! Storing extracted knowledge in the graph.
//!
//! Each tree is stored level by level, the most abstract one as a root, or below
//! the root that it fits well. The transcript lies below all trees, and the most
//! detailed level of each tree is linked with it. What goes below a root keeps its
//! place in the reading order: a temporal edge leads to it from the child before it.
//! Novel knowledge is stored with more importance.

use vstd::prelude::*;

use crate::changes::Stamp;
use crate::edge::EdgeKind;
use crate::fixed::{clamp, multiply, ONE};
use crate::fragment::{copy_numbers, now_unix, Fragment, FragmentId};
#[allow(unused_imports)]
use crate::fragment::FragmentView;
use crate::ingestion::{ExtractionResult, TopicRelationship};
#[allow(unused_imports)]
use crate::ingestion::{RelationshipView, ResultView};
use crate::query::LoreDb;
use crate::storage::StorageError;
#[allow(unused_imports)]
use crate::storage::StorageView;

verus! {

/// A tree whose first level is more similar to an existing root than this fits
/// that root well.
pub const HIGH_FIT: i64 = 750_000_000;

/// How much novelty adds to importance.
pub const PREDICTION_ERROR_ALPHA: i64 = 500_000_000;

/// `1.0 + 0.5 * (1.0 - similarity)`, with the similarity to the nearest root kept
/// between zero and one; 1.0 where it is not known.
pub open spec fn novelty_factor(max_root_similarity: Option<int>) -> int {
    match max_root_similarity {
        Some(s) => ONE + crate::fixed::product(
            PREDICTION_ERROR_ALPHA as int,
            ONE - crate::fixed::clamped(s, 0, ONE as int),
        ),
        None => ONE as int,
    }
}

/// A similarity that may be missing.
pub open spec fn similarity_view(s: Option<i64>) -> Option<int> {
    match s {
        Some(x) => Some(x as int),
        None => None,
    }
}

/// Computes the factor by which novelty raises importance.
pub fn prediction_error_multiplier(max_root_similarity: Option<i64>) -> (r: i64)
    ensures
        r == novelty_factor(similarity_view(max_root_similarity)),
        ONE <= r <= ONE + PREDICTION_ERROR_ALPHA,
{
    match max_root_similarity {
        Some(s) => {
            let rest: i64 = ONE - clamp(s, 0, ONE);
            proof {
                crate::fixed::lemma_product_shrinks(PREDICTION_ERROR_ALPHA as int, rest as int);
            }
            ONE + multiply(PREDICTION_ERROR_ALPHA, rest)
        },
        None => ONE,
    }
}

/// The more novel a topic is, the more it gains.
pub proof fn law_novelty_is_rewarded(a: int, b: int)
    requires
        a <= b,
    ensures
        novelty_factor(Some(b)) <= novelty_factor(Some(a)),
{
    let x = ONE - crate::fixed::clamped(a, 0, ONE as int);
    let y = ONE - crate::fixed::clamped(b, 0, ONE as int);
    crate::fixed::lemma_product_monotone(y, x, PREDICTION_ERROR_ALPHA as int);
    crate::fixed::lemma_product_commutes(x, PREDICTION_ERROR_ALPHA as int);
    crate::fixed::lemma_product_commutes(y, PREDICTION_ERROR_ALPHA as int);
}

// ---- what chance, the clock and the embedder give ----

/// What a new fragment gets from outside: an identifier, the time, the stamp of
/// the edge from its parent, and an embedding if there is one.
#[derive(Debug)]
pub struct Seed {
    pub id: FragmentId,
    pub now: i64,
    pub stamp: Stamp,
    pub embedding: Option<Vec<i32>>,
}

/// What a seed holds.
#[verifier::ext_equal]
pub struct SeedView {
    pub id: FragmentId,
    pub now: i64,
    pub stamp: Stamp,
    pub embedding: Option<Seq<i32>>,
}

impl View for Seed {
    type V = SeedView;

    open spec fn view(&self) -> SeedView {
        SeedView {
            id: self.id,
            now: self.now,
            stamp: self.stamp,
            embedding: match self.embedding {
                Some(e) => Some(e@),
                None => None,
            },
        }
    }
}

/// What the seeds of a list hold.
pub open spec fn seed_views(v: Seq<Seed>) -> Seq<SeedView> {
    Seq::new(v.len(), |i: int| v[i]@)
}

/// What the seeds of a list of lists hold.
pub open spec fn seed_lists(v: Seq<Vec<Seed>>) -> Seq<Seq<SeedView>> {
    Seq::new(v.len(), |i: int| seed_views(v[i]@))
}

impl Seed {
    /// Draws a seed, without an embedding.
    pub fn new() -> (r: Self)
        ensures
            is_drawn_seed(r@),
    {
        Seed { id: FragmentId::new(), now: now_unix(), stamp: Stamp::new(), embedding: None }
    }
}

/// Stamps for the links of a tree: of its last level with the transcript, and of
/// its first level with the sibling before it.
#[derive(Debug, Clone, Copy)]
pub struct TreeStamps {
    pub leaf: Stamp,
    pub sibling: Stamp,
}

/// The seeds of a whole result: one for the transcript, one per level of each
/// tree, and stamps for the links.
#[derive(Debug)]
pub struct Seeds {
    pub transcript: Seed,
    pub trees: Vec<Vec<Seed>>,
    /// For the links of each tree.
    pub links: Vec<TreeStamps>,
    /// For each relationship.
    pub relationships: Vec<Stamp>,
}

/// There is a seed for all that is to be stored.
pub open spec fn seeds_fit(result: ResultView, seeds: Seeds) -> bool {
    &&& seeds.trees.len() == result.trees.len()
    &&& seeds.links.len() == result.trees.len()
    &&& seeds.relationships.len() == result.relationships.len()
    &&& forall|i: int|
        0 <= i < result.trees.len() ==> (#[trigger] seeds.trees@[i]).len() == result.trees[i].len()
}

/// A seed as it is drawn: random identifiers, times since the epoch, and no
/// embedding.
pub open spec fn is_drawn_seed(s: SeedView) -> bool {
    &&& crate::fragment::is_random_uuid(s.id.0)
    &&& s.now >= 0
    &&& crate::changes::is_drawn(s.stamp)
    &&& s.embedding is None
}

/// All stamps of a list are drawn.
pub open spec fn stamps_drawn(stamps: Seq<Stamp>) -> bool {
    forall|i: int| 0 <= i < stamps.len() ==> crate::changes::is_drawn(#[trigger] stamps[i])
}

/// All stamps of the links of trees are drawn.
pub open spec fn links_drawn(links: Seq<TreeStamps>) -> bool {
    forall|i: int|
        0 <= i < links.len() ==> crate::changes::is_drawn((#[trigger] links[i]).leaf)
            && crate::changes::is_drawn(links[i].sibling)
}

/// All seeds of a result are drawn; none of them has an embedding.
pub open spec fn seeds_drawn(seeds: Seeds) -> bool {
    &&& is_drawn_seed(seeds.transcript@)
    &&& forall|t: int, i: int|
        0 <= t < seeds.trees.len() && 0 <= i < seeds.trees@[t].len() ==> is_drawn_seed(
            (#[trigger] seeds.trees@[t]@[i])@,
        )
    &&& links_drawn(seeds.links@)
    &&& stamps_drawn(seeds.relationships@)
}

// ---- fragments to store ----

/// A number of levels as a depth.
pub open spec fn as_depth(n: int) -> u32 {
    if n < u32::MAX {
        n as u32
    } else {
        u32::MAX
    }
}

/// The importance of a level before novelty: 0.9 for the root, 0.5 for the full
/// text, 0.7 for what lies between.
pub open spec fn base_importance(i: int, total: int) -> int {
    if i == 0 {
        900_000_000
    } else if i == total - 1 {
        500_000_000
    } else {
        700_000_000
    }
}

/// A fragment from a seed.
pub open spec fn seeded_fragment(
    content: Seq<char>,
    depth: u32,
    importance: int,
    source_session: Option<Seq<char>>,
    seed: SeedView,
) -> FragmentView {
    FragmentView {
        source_session,
        embedding: match seed.embedding {
            Some(e) => e,
            None => Seq::empty(),
        },
        ..crate::fragment::important_fragment(seed.id, content, depth, importance, seed.now)
    }
}

/// The fragment of a level of a tree, which begins at a depth.
pub open spec fn level_fragment(
    content: Seq<char>,
    i: int,
    total: int,
    top: u32,
    factor: int,
    source_session: Option<Seq<char>>,
    seed: SeedView,
) -> FragmentView {
    seeded_fragment(
        content,
        as_depth(top + i),
        crate::fixed::product(base_importance(i, total), factor) as int,
        source_session,
        seed,
    )
}

/// The most levels that a tree has.
pub open spec fn most_levels(trees: Seq<Seq<Seq<char>>>) -> nat
    decreases trees.len(),
{
    if trees.len() == 0 {
        0
    } else {
        let m = most_levels(trees.drop_last());
        if trees.last().len() > m {
            trees.last().len()
        } else {
            m
        }
    }
}

/// The fragment of the transcript: one level below the deepest tree would end,
/// and of little importance.
pub open spec fn transcript_fragment(
    result: ResultView,
    source_session: Option<Seq<char>>,
    seed: SeedView,
) -> FragmentView {
    seeded_fragment(
        result.transcript,
        as_depth(most_levels(result.trees) as int + 1),
        100_000_000,
        source_session,
        seed,
    )
}

/// A graph while knowledge is stored in it: the fragment that was added last,
/// and the refusal that ended it, if there was one.
pub struct Storing {
    pub graph: StorageView,
    pub last: Option<FragmentId>,
    pub error: Option<StorageError>,
}

/// The depth at which a tree begins below a parent, or as a root.
pub open spec fn top_depth(parent: Option<FragmentId>) -> u32 {
    if parent is Some {
        1
    } else {
        0
    }
}

/// The outcome of storing the levels of a tree, the first as a root or as the
/// child of a parent, each other one as the child of the one before it, up to the
/// first refusal.
pub open spec fn storing_levels(
    g: StorageView,
    parent: Option<FragmentId>,
    levels: Seq<Seq<char>>,
    total: int,
    factor: int,
    source_session: Option<Seq<char>>,
    seeds: Seq<SeedView>,
) -> Storing
    decreases levels.len(),
{
    if levels.len() == 0 {
        Storing { graph: g, last: parent, error: None }
    } else {
        let s = storing_levels(
            g,
            parent,
            levels.drop_last(),
            total,
            factor,
            source_session,
            seeds.drop_last(),
        );
        if s.error is Some {
            s
        } else {
            let f = level_fragment(
                levels.last(),
                levels.len() - 1,
                total,
                top_depth(parent),
                factor,
                source_session,
                seeds.last(),
            );
            let o = crate::changes::inserting(s.graph, f, s.last, seeds.last().stamp);
            match o.result {
                Ok(id) => Storing { graph: o.graph, last: Some(id), error: None },
                Err(e) => Storing { graph: o.graph, last: s.last, error: Some(e) },
            }
        }
    }
}

/// The last of the active children of a parent.
pub open spec fn last_child(g: StorageView, parent: Option<FragmentId>) -> Option<FragmentId> {
    match parent {
        Some(p) => {
            let children = crate::storage::children_of(g, p);
            if children.len() > 0 {
                Some(children.last().id)
            } else {
                None
            }
        },
        None => None,
    }
}

/// The temporal edge from a fragment to the one that follows it.
pub open spec fn sibling_edge(
    before: FragmentId,
    id: FragmentId,
    stamp: Stamp,
) -> crate::edge::EdgeView {
    crate::changes::stamped_edge(before, id, EdgeKind::Temporal, ONE, None, stamp)
}

/// The graph with a fragment put behind its sibling, if it has one; a link that is
/// refused is passed over.
pub open spec fn put_behind(
    g: StorageView,
    before: Option<FragmentId>,
    id: FragmentId,
    stamp: Stamp,
) -> StorageView {
    match before {
        Some(b) => crate::changes::linking(g, sibling_edge(b, id, stamp)).graph,
        None => g,
    }
}

/// The outcome of storing a tree that has levels, and of linking its last level
/// with the transcript. A tree that fits an existing root well goes below it, behind
/// the last child that the root has; any other becomes a tree of its own.
pub open spec fn storing_tree(
    g: StorageView,
    levels: Seq<Seq<char>>,
    source_session: Option<Seq<char>>,
    transcript: FragmentId,
    seeds: Seq<SeedView>,
    links: TreeStamps,
) -> Storing {
    let factor = novelty_factor(crate::changes::root_similarity(g, seeds[0].embedding));
    let parent = crate::changes::close_root(g, seeds[0].embedding, HIGH_FIT);
    let s = storing_levels(g, parent, levels, levels.len() as int, factor, source_session, seeds);
    match (s.error, s.last) {
        (None, Some(id)) => Storing {
            graph: crate::changes::linking(
                put_behind(s.graph, last_child(g, parent), seeds[0].id, links.sibling),
                crate::changes::stamped_edge(
                    id,
                    transcript,
                    EdgeKind::Associative,
                    ONE,
                    None,
                    links.leaf,
                ),
            ).graph,
            ..s
        },
        _ => s,
    }
}

/// The outcome of storing trees one by one, up to the first refusal.
pub open spec fn storing_trees(
    g: StorageView,
    trees: Seq<Seq<Seq<char>>>,
    source_session: Option<Seq<char>>,
    transcript: FragmentId,
    seeds: Seq<Seq<SeedView>>,
    links: Seq<TreeStamps>,
) -> Storing
    decreases trees.len(),
{
    if trees.len() == 0 {
        Storing { graph: g, last: None, error: None }
    } else {
        let s = storing_trees(
            g,
            trees.drop_last(),
            source_session,
            transcript,
            seeds.drop_last(),
            links.drop_last(),
        );
        if s.error is Some || trees.last().len() == 0 {
            s
        } else {
            storing_tree(
                s.graph,
                trees.last(),
                source_session,
                transcript,
                seeds.last(),
                links.last(),
            )
        }
    }
}

/// The first levels of the trees that have levels.
pub open spec fn tree_roots(trees: Seq<Seq<Seq<char>>>, seeds: Seq<Seq<SeedView>>) -> Seq<FragmentId>
    decreases trees.len(),
{
    if trees.len() == 0 {
        Seq::empty()
    } else if trees.last().len() == 0 {
        tree_roots(trees.drop_last(), seeds.drop_last())
    } else {
        tree_roots(trees.drop_last(), seeds.drop_last()).push(seeds.last()[0].id)
    }
}

/// The graph after related roots have been linked; a link that is refused is
/// passed over.
pub open spec fn relating(
    g: StorageView,
    relationships: Seq<RelationshipView>,
    roots: Seq<FragmentId>,
    stamps: Seq<Stamp>,
) -> StorageView
    decreases relationships.len(),
{
    if relationships.len() == 0 {
        g
    } else {
        let before = relating(g, relationships.drop_last(), roots, stamps.drop_last());
        let r = relationships.last();
        if 0 <= r.topic_a < roots.len() && 0 <= r.topic_b < roots.len() {
            crate::changes::linking(
                before,
                crate::changes::stamped_edge(
                    roots[r.topic_a],
                    roots[r.topic_b],
                    EdgeKind::Associative,
                    ONE,
                    Some(r.description),
                    stamps.last(),
                ),
            ).graph
        } else {
            before
        }
    }
}

/// The number of levels of all trees.
pub open spec fn level_count(trees: Seq<Seq<Seq<char>>>) -> nat
    decreases trees.len(),
{
    if trees.len() == 0 {
        0
    } else {
        level_count(trees.drop_last()) + trees.last().len()
    }
}

/// The outcome of storing a result: nothing where there are no trees. Otherwise
/// it tells how many fragments were stored.
pub open spec fn storing_result(
    g: StorageView,
    result: ResultView,
    source_session: Option<Seq<char>>,
    seeds: Seeds,
) -> crate::changes::Outcome<nat> {
    if result.trees.len() == 0 {
        crate::changes::Outcome { graph: g, result: Ok(0) }
    } else {
        let t = transcript_fragment(result, source_session, seeds.transcript@);
        let o = crate::changes::inserting(g, t, None, seeds.transcript.stamp);
        match o.result {
            Ok(id) => {
                let s = storing_trees(
                    o.graph,
                    result.trees,
                    source_session,
                    id,
                    seed_lists(seeds.trees@),
                    seeds.links@,
                );
                match s.error {
                    Some(e) => crate::changes::Outcome { graph: s.graph, result: Err(e) },
                    None => crate::changes::Outcome {
                        graph: relating(
                            s.graph,
                            result.relationships,
                            tree_roots(result.trees, seed_lists(seeds.trees@)),
                            seeds.relationships@,
                        ),
                        result: Ok(1 + level_count(result.trees)),
                    },
                }
            },
            Err(e) => crate::changes::Outcome { graph: o.graph, result: Err(e) },
        }
    }
}

// ---- storing ----

/// A number of levels as a depth.
fn to_depth(n: usize) -> (r: u32)
    ensures
        r == as_depth(n as int),
{
    if (n as u128) < u32::MAX as u128 {
        n as u32
    } else {
        u32::MAX
    }
}

/// The depth of a level of a tree, below a parent or not.
fn level_depth(below: bool, i: usize) -> (r: u32)
    ensures
        r == as_depth(
            if below {
                1 + i as int
            } else {
                i as int
            },
        ),
{
    if below {
        if i < usize::MAX {
            to_depth(i + 1)
        } else {
            u32::MAX
        }
    } else {
        to_depth(i)
    }
}

/// A text that may be missing, as one of its own.
fn own(s: Option<&str>) -> (r: Option<String>)
    ensures
        crate::fragment::text_view(r) == crate::text::optional_text(s),
{
    match s {
        Some(t) => Some(t.to_owned()),
        None => None,
    }
}

/// Makes a fragment from a seed.
fn fragment_from(
    content: &String,
    depth: u32,
    importance: i64,
    source_session: Option<&str>,
    seed: &Seed,
) -> (r: Fragment)
    ensures
        r@ == seeded_fragment(
            content@,
            depth,
            importance as int,
            crate::text::optional_text(source_session),
            seed@,
        ),
{
    let mut f = Fragment::new_with_importance_at(
        seed.id,
        content.clone(),
        depth,
        importance,
        seed.now,
    );
    f.source_session = own(source_session);
    if let Some(e) = &seed.embedding {
        f.embedding = copy_numbers(e);
    }
    f
}

/// Stores the levels of a tree, and gives the identifier of the last one.
fn store_levels(
    db: &mut LoreDb,
    parent: Option<FragmentId>,
    levels: &Vec<String>,
    factor: i64,
    source_session: Option<&str>,
    seeds: &Vec<Seed>,
) -> (r: Result<Option<FragmentId>, StorageError>)
    requires
        old(db).wf(),
        levels.len() == seeds.len(),
    ensures
        final(db).wf(),
        ({
            let s = storing_levels(
                old(db)@,
                parent,
                crate::text::views(levels@),
                levels.len() as int,
                factor as int,
                crate::text::optional_text(source_session),
                seed_views(seeds@),
            );
            &&& final(db)@ == s.graph
            &&& match r {
                Ok(last) => s.error is None && last == s.last,
                Err(e) => s.error == Some(e),
            }
        }),
{
    let ghost before = db@;
    let ghost texts = crate::text::views(levels@);
    let ghost all = seed_views(seeds@);
    let ghost total = levels.len() as int;
    let ghost session = crate::text::optional_text(source_session);
    let mut last: Option<FragmentId> = parent;
    let mut i: usize = 0;
    while i < levels.len()
        invariant
            db.wf(),
            before == old(db)@,
            i <= levels.len() == seeds.len(),
            texts == crate::text::views(levels@),
            all == seed_views(seeds@),
            total == levels.len(),
            session == crate::text::optional_text(source_session),
            ({
                let s = storing_levels(
                    before,
                    parent,
                    texts.take(i as int),
                    total,
                    factor as int,
                    session,
                    all.take(i as int),
                );
                db@ == s.graph && s.error is None && last == s.last
            }),
        decreases levels.len() - i,
    {
        let base: i64 = if i == 0 {
            900_000_000
        } else if i == levels.len() - 1 {
            500_000_000
        } else {
            700_000_000
        };
        let seed = &seeds[i];
        let f = fragment_from(
            &levels[i],
            level_depth(parent.is_some(), i),
            multiply(base, factor),
            source_session,
            seed,
        );
        proof {
            assert(texts.take(i + 1).drop_last() == texts.take(i as int));
            assert(texts.take(i + 1).last() == levels@[i as int]@);
            assert(all.take(i + 1).drop_last() == all.take(i as int));
            assert(all.take(i + 1).last() == seed@);
        }
        match db.insert_stamped(f, last, seed.stamp) {
            Ok(id) => {
                last = Some(id);
            },
            Err(e) => {
                proof {
                    let k = i + 1;
                    lemma_levels_refused(
                        before,
                        parent,
                        texts,
                        k,
                        total,
                        factor as int,
                        session,
                        all,
                    );
                    assert(texts.take(texts.len() as int) == texts);
                    assert(all.take(all.len() as int) == all);
                }
                return Err(e);
            },
        }
        i = i + 1;
    }
    assert(texts.take(i as int) == texts);
    assert(all.take(i as int) == all);
    Ok(last)
}

/// What follows a refusal changes nothing.
proof fn lemma_levels_refused(
    g: StorageView,
    parent: Option<FragmentId>,
    levels: Seq<Seq<char>>,
    k: int,
    total: int,
    factor: int,
    session: Option<Seq<char>>,
    seeds: Seq<SeedView>,
)
    requires
        0 <= k <= levels.len() == seeds.len(),
        storing_levels(g, parent, levels.take(k), total, factor, session, seeds.take(k)).error is Some,
    ensures
        storing_levels(
            g,
            parent,
            levels.take(levels.len() as int),
            total,
            factor,
            session,
            seeds.take(levels.len() as int),
        ) == storing_levels(g, parent, levels.take(k), total, factor, session, seeds.take(k)),
    decreases levels.len() - k,
{
    if k < levels.len() {
        assert(levels.take(k + 1).drop_last() == levels.take(k));
        assert(seeds.take(k + 1).drop_last() == seeds.take(k));
        lemma_levels_refused(g, parent, levels, k + 1, total, factor, session, seeds);
    }
}

/// What follows a refusal changes nothing.
proof fn lemma_trees_refused(
    g: StorageView,
    trees: Seq<Seq<Seq<char>>>,
    k: int,
    session: Option<Seq<char>>,
    transcript: FragmentId,
    seeds: Seq<Seq<SeedView>>,
    links: Seq<TreeStamps>,
)
    requires
        0 <= k <= trees.len() == seeds.len(),
        links.len() == trees.len(),
        storing_trees(
            g,
            trees.take(k),
            session,
            transcript,
            seeds.take(k),
            links.take(k),
        ).error is Some,
    ensures
        storing_trees(g, trees, session, transcript, seeds, links) == storing_trees(
            g,
            trees.take(k),
            session,
            transcript,
            seeds.take(k),
            links.take(k),
        ),
    decreases trees.len() - k,
{
    if k < trees.len() {
        assert(trees.take(k + 1).drop_last() == trees.take(k));
        assert(seeds.take(k + 1).drop_last() == seeds.take(k));
        assert(links.take(k + 1).drop_last() == links.take(k));
        lemma_trees_refused(g, trees, k + 1, session, transcript, seeds, links);
    } else {
        assert(trees.take(k) == trees);
        assert(seeds.take(k) == seeds);
        assert(links.take(k) == links);
    }
}

/// Finds the last of the active children of a parent.
fn find_last_child(db: &LoreDb, parent: Option<FragmentId>) -> (r: Option<FragmentId>)
    requires
        db.wf(),
    ensures
        r == last_child(db@, parent),
{
    match parent {
        Some(p) => {
            let children = db.children(p);
            let ghost all = crate::fragment::fragment_views(children@);
            if children.len() > 0 {
                assert(all.last() == children@[children.len() - 1]@);
                Some(children[children.len() - 1].id)
            } else {
                assert(all.len() == 0);
                None
            }
        },
        None => None,
    }
}

/// Stores the trees, and gives the identifiers of their roots.
fn store_trees(
    db: &mut LoreDb,
    result: &ExtractionResult,
    source_session: Option<&str>,
    transcript: FragmentId,
    seeds: &Seeds,
) -> (r: Result<Vec<FragmentId>, StorageError>)
    requires
        old(db).wf(),
        seeds_fit(result@, *seeds),
    ensures
        final(db).wf(),
        ({
            let s = storing_trees(
                old(db)@,
                result@.trees,
                crate::text::optional_text(source_session),
                transcript,
                seed_lists(seeds.trees@),
                seeds.links@,
            );
            &&& final(db)@ == s.graph
            &&& match r {
                Ok(roots) => s.error is None && roots@ == tree_roots(
                    result@.trees,
                    seed_lists(seeds.trees@),
                ),
                Err(e) => s.error == Some(e),
            }
        }),
{
    let ghost before = db@;
    let ghost trees = result@.trees;
    let ghost all = seed_lists(seeds.trees@);
    let ghost links = seeds.links@;
    let ghost session = crate::text::optional_text(source_session);
    let mut roots: Vec<FragmentId> = Vec::new();
    let mut k: usize = 0;
    assert(roots@ == tree_roots(trees.take(0), all.take(0)));
    while k < result.trees.len()
        invariant
            db.wf(),
            before == old(db)@,
            seeds_fit(result@, *seeds),
            trees == result@.trees,
            trees.len() == result.trees.len(),
            all == seed_lists(seeds.trees@),
            links == seeds.links@,
            session == crate::text::optional_text(source_session),
            k <= result.trees.len(),
            roots@ == tree_roots(trees.take(k as int), all.take(k as int)),
            ({
                let s = storing_trees(
                    before,
                    trees.take(k as int),
                    session,
                    transcript,
                    all.take(k as int),
                    links.take(k as int),
                );
                db@ == s.graph && s.error is None
            }),
        decreases result.trees.len() - k,
    {
        let levels = &result.trees[k];
        let own_seeds = &seeds.trees[k];
        let ghost middle = db@;
        proof {
            assert(trees.take(k + 1).drop_last() == trees.take(k as int));
            assert(trees.take(k + 1).last() == crate::text::views(levels@));
            assert(all.take(k + 1).drop_last() == all.take(k as int));
            assert(all.take(k + 1).last() == seed_views(own_seeds@));
            assert(links.take(k + 1).drop_last() == links.take(k as int));
            assert(links.take(k + 1).last() == links[k as int]);
            assert(own_seeds.len() == levels.len()) by {
                assert(seeds.trees@[k as int].len() == trees[k as int].len());
            }
        }
        if levels.len() > 0 {
            let embedding: Option<&Vec<i32>> = match &own_seeds[0].embedding {
                Some(e) => Some(e),
                None => None,
            };
            let factor: i64 = prediction_error_multiplier(db.max_root_similarity(embedding));
            proof {
                assert(seed_views(own_seeds@)[0] == own_seeds@[0]@);
            }
            let parent: Option<FragmentId> = db.find_best_parent(embedding, HIGH_FIT);
            let before_it: Option<FragmentId> = find_last_child(db, parent);
            match store_levels(db, parent, levels, factor, source_session, own_seeds) {
                Ok(last) => {
                    if let Some(leaf) = last {
                        if let Some(sibling) = before_it {
                            let _ = db.link_stamped(
                                sibling,
                                own_seeds[0].id,
                                EdgeKind::Temporal,
                                ONE,
                                None,
                                seeds.links[k].sibling,
                            );
                        }
                        let _ = db.link_stamped(
                            leaf,
                            transcript,
                            EdgeKind::Associative,
                            ONE,
                            None,
                            seeds.links[k].leaf,
                        );
                    }
                },
                Err(e) => {
                    proof {
                        lemma_trees_refused(
                            before,
                            trees,
                            k + 1,
                            session,
                            transcript,
                            all,
                            links,
                        );
                    }
                    return Err(e);
                },
            }
            roots.push(own_seeds[0].id);
        }
        k = k + 1;
    }
    proof {
        assert(trees.take(k as int) == trees);
        assert(all.take(k as int) == all);
        assert(links.take(k as int) == links);
    }
    Ok(roots)
}

/// Links related roots.
fn relate_roots(
    db: &mut LoreDb,
    relationships: &Vec<TopicRelationship>,
    roots: &Vec<FragmentId>,
    stamps: &Vec<Stamp>,
)
    requires
        old(db).wf(),
        relationships.len() == stamps.len(),
    ensures
        final(db).wf(),
        final(db)@ == relating(
            old(db)@,
            crate::ingestion::relationship_views(relationships@),
            roots@,
            stamps@,
        ),
{
    let ghost before = db@;
    let ghost all = crate::ingestion::relationship_views(relationships@);
    let mut i: usize = 0;
    while i < relationships.len()
        invariant
            db.wf(),
            i <= relationships.len() == stamps.len(),
            all == crate::ingestion::relationship_views(relationships@),
            db@ == relating(before, all.take(i as int), roots@, stamps@.take(i as int)),
        decreases relationships.len() - i,
    {
        let rel = &relationships[i];
        proof {
            assert(all.take(i + 1).drop_last() == all.take(i as int));
            assert(all.take(i + 1).last() == rel@);
            assert(stamps@.take(i + 1).drop_last() == stamps@.take(i as int));
        }
        if rel.topic_a < roots.len() && rel.topic_b < roots.len() {
            let _ = db.link_stamped(
                roots[rel.topic_a],
                roots[rel.topic_b],
                EdgeKind::Associative,
                ONE,
                Some(rel.description.clone()),
                stamps[i],
            );
        }
        i = i + 1;
    }
    assert(all.take(i as int) == all);
    assert(stamps@.take(i as int) == stamps@);
}

/// Counts levels.
fn count_levels(trees: &Vec<Vec<String>>) -> (r: (usize, u128))
    ensures
        r.0 == most_levels(crate::ingestion::level_views(trees@)),
        r.1 == level_count(crate::ingestion::level_views(trees@)),
        r.1 <= trees.len() * usize::MAX,
{
    let ghost all = crate::ingestion::level_views(trees@);
    let mut most: usize = 0;
    let mut count: u128 = 0;
    let mut i: usize = 0;
    while i < trees.len()
        invariant
            i <= trees.len(),
            all == crate::ingestion::level_views(trees@),
            most == most_levels(all.take(i as int)),
            count == level_count(all.take(i as int)),
            count <= i * usize::MAX,
        decreases trees.len() - i,
    {
        proof {
            assert(all.take(i + 1).drop_last() == all.take(i as int));
            assert(all.take(i + 1).last().len() == trees@[i as int].len());
            assert((i + 1) * usize::MAX == i * usize::MAX + usize::MAX) by (nonlinear_arith);
            assert(i * usize::MAX <= usize::MAX * usize::MAX) by (nonlinear_arith)
                requires
                    i <= usize::MAX,
            ;
            assert(usize::MAX * usize::MAX + usize::MAX <= u128::MAX) by (nonlinear_arith)
                requires
                    usize::MAX <= 0xffff_ffff_ffff_ffff,
            ;
        }
        let n: usize = trees[i].len();
        if n > most {
            most = n;
        }
        count = count + n as u128;
        i = i + 1;
    }
    assert(all.take(i as int) == all);
    (most, count)
}

/// Stores a result with given seeds, and tells how many fragments were stored.
pub fn store_extraction_seeded(
    db: &mut LoreDb,
    result: &ExtractionResult,
    source_session: Option<&str>,
    seeds: &Seeds,
) -> (r: Result<usize, StorageError>)
    requires
        old(db).wf(),
        seeds_fit(result@, *seeds),
    ensures
        final(db).wf(),
        ({
            let o = storing_result(old(db)@, result@, crate::text::optional_text(source_session), *seeds);
            &&& final(db)@ == o.graph
            &&& match r {
                Ok(n) => o.result matches Ok(m) && n == crate::consolidation::counted(m),
                Err(e) => o.result == Err::<nat, StorageError>(e),
            }
        }),
{
    if result.trees.len() == 0 {
        assert(result@.trees.len() == 0);
        return Ok(0);
    }
    let (most, count) = count_levels(&result.trees);
    let depth: u32 = if most < usize::MAX {
        to_depth(most + 1)
    } else {
        u32::MAX
    };
    assert(depth == as_depth(most + 1));
    let transcript = fragment_from(
        &result.transcript,
        depth,
        100_000_000,
        source_session,
        &seeds.transcript,
    );
    let id = match db.insert_stamped(transcript, None, seeds.transcript.stamp) {
        Ok(id) => id,
        Err(e) => {
            return Err(e);
        },
    };
    match store_trees(db, result, source_session, id, seeds) {
        Ok(roots) => {
            relate_roots(db, &result.relationships, &roots, &seeds.relationships);
            if count >= usize::MAX as u128 {
                Ok(usize::MAX)
            } else {
                Ok(count as usize + 1)
            }
        },
        Err(e) => Err(e),
    }
}

/// Stamps, as many as are needed.
fn draw_stamps(n: usize) -> (r: Vec<Stamp>)
    ensures
        r.len() == n,
        stamps_drawn(r@),
{
    let mut out: Vec<Stamp> = Vec::new();
    let mut i: usize = 0;
    while i < n
        invariant
            i <= n,
            out.len() == i,
            stamps_drawn(out@),
        decreases n - i,
    {
        out.push(Stamp::new());
        i = i + 1;
    }
    out
}

/// Stamps for the links of trees, as many as are needed.
fn draw_links(n: usize) -> (r: Vec<TreeStamps>)
    ensures
        r.len() == n,
        links_drawn(r@),
{
    let mut out: Vec<TreeStamps> = Vec::new();
    let mut i: usize = 0;
    while i < n
        invariant
            i <= n,
            out.len() == i,
            links_drawn(out@),
        decreases n - i,
    {
        out.push(TreeStamps { leaf: Stamp::new(), sibling: Stamp::new() });
        i = i + 1;
    }
    out
}

/// Draws the seeds of a result, without embeddings.
pub fn draw_seeds(result: &ExtractionResult) -> (r: Seeds)
    ensures
        seeds_fit(result@, r),
        seeds_drawn(r),
{
    let mut trees: Vec<Vec<Seed>> = Vec::new();
    let mut k: usize = 0;
    while k < result.trees.len()
        invariant
            k <= result.trees.len(),
            trees.len() == k,
            forall|i: int| 0 <= i < k ==> (#[trigger] trees@[i]).len() == result@.trees[i].len(),
            forall|t: int, i: int|
                0 <= t < k && 0 <= i < trees@[t].len() ==> is_drawn_seed(
                    (#[trigger] trees@[t]@[i])@,
                ),
        decreases result.trees.len() - k,
    {
        let n: usize = result.trees[k].len();
        let mut seeds: Vec<Seed> = Vec::new();
        let mut i: usize = 0;
        while i < n
            invariant
                i <= n,
                seeds.len() == i,
                forall|j: int| 0 <= j < i ==> is_drawn_seed((#[trigger] seeds@[j])@),
            decreases n - i,
        {
            seeds.push(Seed::new());
            i = i + 1;
        }
        assert(n == result@.trees[k as int].len());
        trees.push(seeds);
        k = k + 1;
    }
    Seeds {
        transcript: Seed::new(),
        trees,
        links: draw_links(result.trees.len()),
        relationships: draw_stamps(result.relationships.len()),
    }
}

/// Stores a result, and tells how many fragments were stored.
pub fn store_extraction_result(
    db: &mut LoreDb,
    result: &ExtractionResult,
    source_session: Option<&str>,
) -> (r: Result<usize, StorageError>)
    requires
        old(db).wf(),
    ensures
        final(db).wf(),
        exists|seeds: Seeds| #[trigger]
            seeds_fit(result@, seeds) && seeds_drawn(seeds) && ({
                let o = storing_result(
                    old(db)@,
                    result@,
                    crate::text::optional_text(source_session),
                    seeds,
                );
                &&& final(db)@ == o.graph
                &&& match r {
                    Ok(n) => o.result matches Ok(m) && n == crate::consolidation::counted(m),
                    Err(e) => o.result == Err::<nat, StorageError>(e),
                }
            }),
{
    let seeds = draw_seeds(result);
    store_extraction_seeded(db, result, source_session, &seeds)
}

// ---- laws ----

proof fn lemma_levels_counted(
    g: StorageView,
    parent: Option<FragmentId>,
    levels: Seq<Seq<char>>,
    total: int,
    factor: int,
    session: Option<Seq<char>>,
    seeds: Seq<SeedView>,
)
    ensures
        ({
            let s = storing_levels(g, parent, levels, total, factor, session, seeds);
            s.error is None ==> s.graph.fragments.len() == g.fragments.len() + levels.len()
        }),
    decreases levels.len(),
{
    if levels.len() > 0 {
        lemma_levels_counted(
            g,
            parent,
            levels.drop_last(),
            total,
            factor,
            session,
            seeds.drop_last(),
        );
    }
}

proof fn lemma_trees_counted(
    g: StorageView,
    trees: Seq<Seq<Seq<char>>>,
    session: Option<Seq<char>>,
    transcript: FragmentId,
    seeds: Seq<Seq<SeedView>>,
    links: Seq<TreeStamps>,
)
    ensures
        ({
            let s = storing_trees(g, trees, session, transcript, seeds, links);
            s.error is None ==> s.graph.fragments.len() == g.fragments.len() + level_count(trees)
        }),
    decreases trees.len(),
{
    if trees.len() > 0 {
        lemma_trees_counted(
            g,
            trees.drop_last(),
            session,
            transcript,
            seeds.drop_last(),
            links.drop_last(),
        );
        let s = storing_trees(
            g,
            trees.drop_last(),
            session,
            transcript,
            seeds.drop_last(),
            links.drop_last(),
        );
        let levels = trees.last();
        let own_seeds = seeds.last();
        let parent = crate::changes::close_root(s.graph, own_seeds[0].embedding, HIGH_FIT);
        let factor = novelty_factor(
            crate::changes::root_similarity(s.graph, own_seeds[0].embedding),
        );
        lemma_levels_counted(
            s.graph,
            parent,
            levels,
            levels.len() as int,
            factor,
            session,
            own_seeds,
        );
    }
}

proof fn lemma_relating_keeps(
    g: StorageView,
    relationships: Seq<RelationshipView>,
    roots: Seq<FragmentId>,
    stamps: Seq<Stamp>,
)
    ensures
        relating(g, relationships, roots, stamps).fragments == g.fragments,
    decreases relationships.len(),
{
    if relationships.len() > 0 {
        lemma_relating_keeps(g, relationships.drop_last(), roots, stamps.drop_last());
    }
}

/// Storing a result adds as many fragments as it tells: one for each level of
/// each tree, and one for the transcript.
pub proof fn law_stored_fragments_are_counted(
    g: StorageView,
    result: ResultView,
    source_session: Option<Seq<char>>,
    seeds: Seeds,
)
    ensures
        storing_result(g, result, source_session, seeds).result matches Ok(n) ==> n == (if result.trees.len()
            == 0 {
            0
        } else {
            1 + level_count(result.trees)
        }) && storing_result(g, result, source_session, seeds).graph.fragments.len()
            == g.fragments.len() + n,
{
    if result.trees.len() > 0 {
        let t = transcript_fragment(result, source_session, seeds.transcript@);
        let o = crate::changes::inserting(g, t, None, seeds.transcript.stamp);
        if let Ok(id) = o.result {
            let s = storing_trees(
                o.graph,
                result.trees,
                source_session,
                id,
                seed_lists(seeds.trees@),
                seeds.links@,
            );
            lemma_trees_counted(
                o.graph,
                result.trees,
                source_session,
                id,
                seed_lists(seeds.trees@),
                seeds.links@,
            );
            lemma_relating_keeps(
                s.graph,
                result.relationships,
                tree_roots(result.trees, seed_lists(seeds.trees@)),
                seeds.relationships@,
            );
        }
    }
}

/// A graph holds all of another one, in the same order, and only fragments and
/// edges besides.
pub open spec fn only_adds(g: StorageView, after: StorageView) -> bool {
    &&& g.fragments.len() <= after.fragments.len()
    &&& after.fragments.take(g.fragments.len() as int) == g.fragments
    &&& g.edges.len() <= after.edges.len()
    &&& after.edges.take(g.edges.len() as int) == g.edges
    &&& after.watermarks == g.watermarks
    &&& after.turns == g.turns
    &&& after.next_turn == g.next_turn
}

proof fn lemma_only_adds_twice(a: StorageView, b: StorageView, c: StorageView)
    requires
        only_adds(a, b),
        only_adds(b, c),
    ensures
        only_adds(a, c),
{
    assert(c.fragments.take(b.fragments.len() as int).take(a.fragments.len() as int)
        == c.fragments.take(a.fragments.len() as int));
    assert(c.edges.take(b.edges.len() as int).take(a.edges.len() as int) == c.edges.take(
        a.edges.len() as int,
    ));
}

proof fn lemma_inserting_only_adds(
    g: StorageView,
    f: FragmentView,
    parent: Option<FragmentId>,
    stamp: Stamp,
)
    ensures
        only_adds(g, crate::changes::inserting(g, f, parent, stamp).graph),
{
    let after = crate::changes::inserting(g, f, parent, stamp).graph;
    assert(after.fragments.take(g.fragments.len() as int) == g.fragments);
    assert(after.edges.take(g.edges.len() as int) == g.edges);
}

proof fn lemma_linking_only_adds(g: StorageView, e: crate::edge::EdgeView)
    ensures
        only_adds(g, crate::changes::linking(g, e).graph),
{
    let after = crate::changes::linking(g, e).graph;
    assert(after.fragments.take(g.fragments.len() as int) == g.fragments);
    assert(after.edges.take(g.edges.len() as int) == g.edges);
}

proof fn lemma_levels_only_add(
    g: StorageView,
    parent: Option<FragmentId>,
    levels: Seq<Seq<char>>,
    total: int,
    factor: int,
    session: Option<Seq<char>>,
    seeds: Seq<SeedView>,
)
    ensures
        only_adds(g, storing_levels(g, parent, levels, total, factor, session, seeds).graph),
    decreases levels.len(),
{
    if levels.len() == 0 {
        assert(g.fragments.take(g.fragments.len() as int) == g.fragments);
        assert(g.edges.take(g.edges.len() as int) == g.edges);
    } else {
        let s = storing_levels(
            g,
            parent,
            levels.drop_last(),
            total,
            factor,
            session,
            seeds.drop_last(),
        );
        lemma_levels_only_add(
            g,
            parent,
            levels.drop_last(),
            total,
            factor,
            session,
            seeds.drop_last(),
        );
        if s.error is None {
            let f = level_fragment(
                levels.last(),
                levels.len() - 1,
                total,
                top_depth(parent),
                factor,
                session,
                seeds.last(),
            );
            let stamp = seeds.last().stamp;
            lemma_inserting_only_adds(s.graph, f, s.last, stamp);
            lemma_only_adds_twice(
                g,
                s.graph,
                crate::changes::inserting(s.graph, f, s.last, stamp).graph,
            );
        }
    }
}

proof fn lemma_tree_only_adds(
    g: StorageView,
    levels: Seq<Seq<char>>,
    session: Option<Seq<char>>,
    transcript: FragmentId,
    seeds: Seq<SeedView>,
    links: TreeStamps,
)
    ensures
        only_adds(g, storing_tree(g, levels, session, transcript, seeds, links).graph),
{
    let factor = novelty_factor(crate::changes::root_similarity(g, seeds[0].embedding));
    let parent = crate::changes::close_root(g, seeds[0].embedding, HIGH_FIT);
    let total = levels.len() as int;
    let s = storing_levels(g, parent, levels, total, factor, session, seeds);
    lemma_levels_only_add(g, parent, levels, total, factor, session, seeds);
    if let (None, Some(id)) = (s.error, s.last) {
        let e = crate::changes::stamped_edge(
            id,
            transcript,
            EdgeKind::Associative,
            ONE,
            None,
            links.leaf,
        );
        let before = last_child(g, parent);
        let behind = put_behind(s.graph, before, seeds[0].id, links.sibling);
        if let Some(b) = before {
            let link = sibling_edge(b, seeds[0].id, links.sibling);
            lemma_linking_only_adds(s.graph, link);
            lemma_only_adds_twice(g, s.graph, behind);
        }
        lemma_linking_only_adds(behind, e);
        lemma_only_adds_twice(g, behind, crate::changes::linking(behind, e).graph);
    }
}

proof fn lemma_trees_only_add(
    g: StorageView,
    trees: Seq<Seq<Seq<char>>>,
    session: Option<Seq<char>>,
    transcript: FragmentId,
    seeds: Seq<Seq<SeedView>>,
    links: Seq<TreeStamps>,
)
    ensures
        only_adds(g, storing_trees(g, trees, session, transcript, seeds, links).graph),
    decreases trees.len(),
{
    if trees.len() == 0 {
        assert(g.fragments.take(g.fragments.len() as int) == g.fragments);
        assert(g.edges.take(g.edges.len() as int) == g.edges);
    } else {
        let s = storing_trees(
            g,
            trees.drop_last(),
            session,
            transcript,
            seeds.drop_last(),
            links.drop_last(),
        );
        lemma_trees_only_add(
            g,
            trees.drop_last(),
            session,
            transcript,
            seeds.drop_last(),
            links.drop_last(),
        );
        lemma_tree_only_adds(
            s.graph,
            trees.last(),
            session,
            transcript,
            seeds.last(),
            links.last(),
        );
        lemma_only_adds_twice(
            g,
            s.graph,
            storing_tree(
                s.graph,
                trees.last(),
                session,
                transcript,
                seeds.last(),
                links.last(),
            ).graph,
        );
    }
}

proof fn lemma_relating_only_adds(
    g: StorageView,
    relationships: Seq<RelationshipView>,
    roots: Seq<FragmentId>,
    stamps: Seq<Stamp>,
)
    ensures
        only_adds(g, relating(g, relationships, roots, stamps)),
    decreases relationships.len(),
{
    if relationships.len() == 0 {
        assert(g.fragments.take(g.fragments.len() as int) == g.fragments);
        assert(g.edges.take(g.edges.len() as int) == g.edges);
    } else {
        let before = relating(g, relationships.drop_last(), roots, stamps.drop_last());
        let r = relationships.last();
        lemma_relating_only_adds(g, relationships.drop_last(), roots, stamps.drop_last());
        let e = crate::changes::stamped_edge(
            roots[r.topic_a],
            roots[r.topic_b],
            EdgeKind::Associative,
            ONE,
            Some(r.description),
            stamps.last(),
        );
        lemma_linking_only_adds(before, e);
        lemma_only_adds_twice(g, before, crate::changes::linking(before, e).graph);
    }
}

/// Storing a result only adds to a memory: nothing that was known is changed or
/// lost, not even where storing is refused on the way.
pub proof fn law_storing_only_adds(
    g: StorageView,
    result: ResultView,
    source_session: Option<Seq<char>>,
    seeds: Seeds,
)
    ensures
        only_adds(g, storing_result(g, result, source_session, seeds).graph),
{
    assert(g.fragments.take(g.fragments.len() as int) == g.fragments);
    assert(g.edges.take(g.edges.len() as int) == g.edges);
    if result.trees.len() > 0 {
        let t = transcript_fragment(result, source_session, seeds.transcript@);
        let o = crate::changes::inserting(g, t, None, seeds.transcript.stamp);
        lemma_inserting_only_adds(g, t, None, seeds.transcript.stamp);
        if let Ok(id) = o.result {
            let lists = seed_lists(seeds.trees@);
            let s = storing_trees(
                o.graph,
                result.trees,
                source_session,
                id,
                lists,
                seeds.links@,
            );
            lemma_trees_only_add(
                o.graph,
                result.trees,
                source_session,
                id,
                lists,
                seeds.links@,
            );
            lemma_only_adds_twice(g, o.graph, s.graph);
            let roots = tree_roots(result.trees, lists);
            lemma_relating_only_adds(s.graph, result.relationships, roots, seeds.relationships@);
            lemma_only_adds_twice(
                g,
                s.graph,
                relating(s.graph, result.relationships, roots, seeds.relationships@),
            );
        }
    }
}

/// Some fragment has a content.
pub open spec fn has_content(fs: Seq<FragmentView>, content: Seq<char>) -> bool {
    exists|k: int| 0 <= k < fs.len() && (#[trigger] fs[k]).content == content
}

proof fn lemma_content_stays(g: StorageView, after: StorageView, content: Seq<char>)
    requires
        only_adds(g, after),
        has_content(g.fragments, content),
    ensures
        has_content(after.fragments, content),
{
    let k = choose|k: int|
        0 <= k < g.fragments.len() && (#[trigger] g.fragments[k]).content == content;
    assert(after.fragments.take(g.fragments.len() as int)[k] == after.fragments[k]);
}

proof fn lemma_levels_stored(
    g: StorageView,
    parent: Option<FragmentId>,
    levels: Seq<Seq<char>>,
    total: int,
    factor: int,
    session: Option<Seq<char>>,
    seeds: Seq<SeedView>,
    i: int,
)
    requires
        0 <= i < levels.len(),
        storing_levels(g, parent, levels, total, factor, session, seeds).error is None,
    ensures
        has_content(
            storing_levels(g, parent, levels, total, factor, session, seeds).graph.fragments,
            levels[i],
        ),
    decreases levels.len(),
{
    let fewer = levels.drop_last();
    let s = storing_levels(g, parent, fewer, total, factor, session, seeds.drop_last());
    let f = level_fragment(
        levels.last(),
        levels.len() - 1,
        total,
        top_depth(parent),
        factor,
        session,
        seeds.last(),
    );
    let stamp = seeds.last().stamp;
    let after = crate::changes::inserting(s.graph, f, s.last, stamp).graph;
    if i == levels.len() - 1 {
        assert(after.fragments[s.graph.fragments.len() as int] == f);
    } else {
        lemma_levels_stored(g, parent, fewer, total, factor, session, seeds.drop_last(), i);
        lemma_inserting_only_adds(s.graph, f, s.last, stamp);
        lemma_content_stays(s.graph, after, levels[i]);
    }
}

proof fn lemma_trees_stored(
    g: StorageView,
    trees: Seq<Seq<Seq<char>>>,
    session: Option<Seq<char>>,
    transcript: FragmentId,
    seeds: Seq<Seq<SeedView>>,
    links: Seq<TreeStamps>,
    t: int,
    i: int,
)
    requires
        0 <= t < trees.len(),
        0 <= i < trees[t].len(),
        storing_trees(g, trees, session, transcript, seeds, links).error is None,
    ensures
        has_content(
            storing_trees(g, trees, session, transcript, seeds, links).graph.fragments,
            trees[t][i],
        ),
    decreases trees.len(),
{
    let fewer = trees.drop_last();
    let s = storing_trees(
        g,
        fewer,
        session,
        transcript,
        seeds.drop_last(),
        links.drop_last(),
    );
    let levels = trees.last();
    let own = seeds.last();
    let after = storing_tree(s.graph, levels, session, transcript, own, links.last()).graph;
    if t < trees.len() - 1 {
        lemma_trees_stored(
            g,
            fewer,
            session,
            transcript,
            seeds.drop_last(),
            links.drop_last(),
            t,
            i,
        );
        lemma_tree_only_adds(s.graph, levels, session, transcript, own, links.last());
        lemma_content_stays(s.graph, after, trees[t][i]);
    } else {
        let parent = crate::changes::close_root(s.graph, own[0].embedding, HIGH_FIT);
        let factor = novelty_factor(crate::changes::root_similarity(s.graph, own[0].embedding));
        lemma_levels_stored(
            s.graph,
            parent,
            levels,
            levels.len() as int,
            factor,
            session,
            own,
            i,
        );
    }
}

/// What was extracted is stored: where storing succeeds, the memory holds the
/// transcript, and each level of each tree.
pub proof fn law_extracted_is_stored(
    g: StorageView,
    result: ResultView,
    source_session: Option<Seq<char>>,
    seeds: Seeds,
)
    requires
        storing_result(g, result, source_session, seeds).result is Ok,
    ensures
        ({
            let after = storing_result(g, result, source_session, seeds).graph;
            &&& result.trees.len() > 0 ==> has_content(after.fragments, result.transcript)
            &&& forall|t: int, i: int|
                0 <= t < result.trees.len() && 0 <= i < result.trees[t].len() ==> has_content(
                    after.fragments,
                    #[trigger] result.trees[t][i],
                )
        }),
{
    if result.trees.len() > 0 {
        let lists = seed_lists(seeds.trees@);
        let f = transcript_fragment(result, source_session, seeds.transcript@);
        let o = crate::changes::inserting(g, f, None, seeds.transcript.stamp);
        let id = o.result->Ok_0;
        let s = storing_trees(o.graph, result.trees, source_session, id, lists, seeds.links@);
        let roots = tree_roots(result.trees, lists);
        let after = relating(s.graph, result.relationships, roots, seeds.relationships@);
        lemma_trees_only_add(
            o.graph,
            result.trees,
            source_session,
            id,
            lists,
            seeds.links@,
        );
        lemma_relating_only_adds(s.graph, result.relationships, roots, seeds.relationships@);
        assert(o.graph.fragments[g.fragments.len() as int] == f);
        lemma_content_stays(o.graph, s.graph, result.transcript);
        lemma_content_stays(s.graph, after, result.transcript);
        assert forall|t: int, i: int|
            0 <= t < result.trees.len() && 0 <= i < result.trees[t].len() implies has_content(
            after.fragments,
            #[trigger] result.trees[t][i],
        ) by {
            lemma_trees_stored(
                o.graph,
                result.trees,
                source_session,
                id,
                lists,
                seeds.links@,
                t,
                i,
            );
            lemma_content_stays(s.graph, after, result.trees[t][i]);
        }
    }
}

// ---- laws of what is stored ----

/// What novelty is worth: nothing where a root is wholly similar or nothing is known, half
/// as much again where none is similar at all, and evenly between.
pub proof fn law_novelty(s: int)
    requires
        0 <= s <= 1_000_000_000,
    ensures
        novelty_factor(None) == 1_000_000_000,
        novelty_factor(Some(s)) == 1_000_000_000 + (1_000_000_000 - s) / 2,
        novelty_factor(Some(-1 - s)) == 1_500_000_000,
        novelty_factor(Some(1_000_000_001 + s)) == 1_000_000_000,
{
    let rest = 1_000_000_000 - s;
    assert(500_000_000 * rest / 1_000_000_000 == rest / 2);
}

/// What a level of a tree is stored as: its text, as deep below the top as it is in the
/// tree, with an importance of 0.9 for the first level, 0.5 for the last and 0.7 for
/// those between, raised by novelty but not above one; with its session and embedding.
pub proof fn law_levels_of_trees(
    content: Seq<char>,
    i: int,
    total: int,
    top: u32,
    factor: int,
    session: Option<Seq<char>>,
    seed: SeedView,
)
    requires
        0 <= i < total,
        top + i < u32::MAX,
        1_000_000_000 <= factor <= 1_500_000_000,
    ensures
        ({
            let f = level_fragment(content, i, total, top, factor, session, seed);
            let base: int = if i == 0 {
                9
            } else if i == total - 1 {
                5
            } else {
                7
            };
            let raised = base * factor / 10;
            &&& f.id == seed.id && f.content == content && f.depth == top + i
            &&& f.importance == if raised < 1_000_000_000 {
                raised
            } else {
                1_000_000_000
            }
            &&& f.source_session == session
            &&& seed.embedding matches Some(e) ==> f.embedding == e
            &&& seed.embedding is None ==> f.embedding.len() == 0
            &&& f.created_at == seed.now && f.superseded_by is None && f.access_count == 0
            &&& f.relevance_score == 1_000_000_000
        }),
{
    let base: int = if i == 0 {
        9
    } else if i == total - 1 {
        5
    } else {
        7
    };
    let b = base_importance(i, total);
    assert(b == base * 100_000_000);
    assert(b * factor == (base * factor) * 100_000_000) by (nonlinear_arith)
        requires
            b == base * 100_000_000,
    ;
    let p = base * factor;
    assert(0 <= p <= 13_500_000_000) by (nonlinear_arith)
        requires
            p == base * factor,
            5 <= base <= 9,
            1_000_000_000 <= factor <= 1_500_000_000,
    ;
    assert((p * 100_000_000) / 1_000_000_000 == p / 10);
    crate::fragment::law_new_fragments(
        seed.id,
        content,
        as_depth(top + i),
        crate::fixed::product(b, factor) as int,
        seed.now,
    );
}

/// The transcript is stored in full, one level below where the tree with the most levels
/// would end, and with an importance of 0.1.
pub proof fn law_transcript(result: ResultView, session: Option<Seq<char>>, seed: SeedView)
    requires
        forall|t: int|
            0 <= t < result.trees.len() ==> (#[trigger] result.trees[t]).len() < u32::MAX - 1,
    ensures
        ({
            let f = transcript_fragment(result, session, seed);
            &&& f.id == seed.id && f.content == result.transcript && f.source_session == session
            &&& f.importance == 100_000_000
            &&& forall|t: int|
                0 <= t < result.trees.len() ==> f.depth > (#[trigger] result.trees[t]).len()
            &&& result.trees.len() > 0 ==> exists|t: int|
                0 <= t < result.trees.len() && f.depth == (#[trigger] result.trees[t]).len() + 1
        }),
{
    lemma_most_levels(result.trees);
    crate::fragment::law_new_fragments(
        seed.id,
        result.transcript,
        as_depth(most_levels(result.trees) as int + 1),
        100_000_000,
        seed.now,
    );
}

proof fn lemma_most_levels(trees: Seq<Seq<Seq<char>>>)
    ensures
        forall|t: int| 0 <= t < trees.len() ==> (#[trigger] trees[t]).len() <= most_levels(trees),
        trees.len() > 0 ==> exists|t: int|
            0 <= t < trees.len() && (#[trigger] trees[t]).len() == most_levels(trees),
        trees.len() == 0 ==> most_levels(trees) == 0,
    decreases trees.len(),
{
    if trees.len() > 0 {
        let front = trees.drop_last();
        lemma_most_levels(front);
        assert forall|t: int| 0 <= t < trees.len() implies (#[trigger] trees[t]).len()
            <= most_levels(trees) by {
            if t < front.len() {
                assert(front[t].len() <= most_levels(front));
            }
        }
        assert(trees[trees.len() - 1].len() == trees.last().len());
        if most_levels(trees) != trees.last().len() {
            let t = choose|t: int|
                0 <= t < front.len() && (#[trigger] front[t]).len() == most_levels(front);
            assert(trees[t].len() == most_levels(trees));
        }
    }
}

/// Related topics are linked: each relationship makes an associative edge of full weight
/// from the root of the one topic to the root of the other, with its description, unless
/// the edge is refused; one that names no topic makes none.
pub proof fn law_related_topics_are_linked(
    g: StorageView,
    relationships: Seq<RelationshipView>,
    roots: Seq<FragmentId>,
    stamps: Seq<Stamp>,
    r: RelationshipView,
    stamp: Stamp,
)
    ensures
        relating(g, Seq::empty(), roots, Seq::empty()) == g,
        ({
            let before = relating(g, relationships, roots, stamps);
            let after = relating(g, relationships.push(r), roots, stamps.push(stamp));
            let named = 0 <= r.topic_a < roots.len() && 0 <= r.topic_b < roots.len();
            let e = crate::edge::EdgeView {
                id: stamp.id,
                source: roots[r.topic_a],
                target: roots[r.topic_b],
                kind: EdgeKind::Associative,
                weight: 1_000_000_000,
                content: Some(r.description),
                created_at: stamp.now,
            };
            &&& !named ==> after == before
            &&& named && crate::storage::insert_edge_result(before, e) is Ok ==> after == (
            StorageView { edges: before.edges.push(e), ..before })
            &&& named && crate::storage::insert_edge_result(before, e) is Err ==> after == before
        }),
{
    assert(relationships.push(r).drop_last() == relationships);
    assert(stamps.push(stamp).drop_last() == stamps);
}

/// The roots of trees are their first levels, in their order, and levels are counted one
/// by one; a tree without levels has neither.
pub proof fn law_roots_and_levels(
    trees: Seq<Seq<Seq<char>>>,
    seeds: Seq<Seq<SeedView>>,
    tree: Seq<Seq<char>>,
    own: Seq<SeedView>,
)
    requires
        seeds.len() == trees.len(),
    ensures
        tree_roots(Seq::empty(), Seq::empty()).len() == 0,
        level_count(Seq::empty()) == 0,
        level_count(trees.push(tree)) == level_count(trees) + tree.len(),
        tree.len() == 0 ==> tree_roots(trees.push(tree), seeds.push(own)) == tree_roots(
            trees,
            seeds,
        ),
        tree.len() > 0 ==> tree_roots(trees.push(tree), seeds.push(own)) == tree_roots(
            trees,
            seeds,
        ).push(own[0].id),
{
    assert(trees.push(tree).drop_last() == trees);
    assert(seeds.push(own).drop_last() == seeds);
}

/// A tree goes below an existing root only where its first level is more similar to that
/// than 0.75, and to the most similar one; it begins at depth one there, and at depth zero
/// otherwise.
pub proof fn law_trees_find_their_root(g: StorageView, e: Seq<i32>)
    ensures
        match crate::changes::close_root(g, Some(e), HIGH_FIT) {
            Some(id) => top_depth(Some(id)) == 1 && exists|i: int|
                {
                    let f = #[trigger] g.fragments[i];
                    &&& 0 <= i < g.fragments.len()
                    &&& f.id == id && f.depth == 0 && f.superseded_by is None
                    &&& crate::embedding::similarity(e, f.embedding) > 750_000_000
                },
            None => top_depth(None) == 0 && forall|j: int|
                0 <= j < g.fragments.len() && crate::changes::is_candidate_root(
                    #[trigger] g.fragments[j],
                ) ==> crate::embedding::similarity(e, g.fragments[j].embedding) <= 750_000_000,
        },
{
    crate::changes::law_close_root(g, e, HIGH_FIT);
    if let Some(id) = crate::changes::close_root(g, Some(e), HIGH_FIT) {
        let i = choose|i: int|
            {
                let f = #[trigger] g.fragments[i];
                &&& 0 <= i < g.fragments.len()
                &&& f.id == id && crate::changes::is_candidate_root(f)
                &&& crate::embedding::similarity(e, f.embedding) > HIGH_FIT
            };
        assert(g.fragments[i].id == id);
    }
}

/// The sibling that a tree is put behind is the last active child of its parent.
pub proof fn law_last_child(g: StorageView, p: FragmentId)
    ensures
        last_child(g, None) is None,
        crate::storage::children_of(g, p).len() == 0 ==> last_child(g, Some(p)) is None,
        crate::storage::children_of(g, p).len() > 0 ==> last_child(g, Some(p)) == Some(
            crate::storage::children_of(g, p)[crate::storage::children_of(g, p).len() - 1].id,
        ),
{
}

/// Levels are stored one below the other: each behind the ones before it, with an edge of
/// the hierarchy from the level before it; and the first one from the parent of the tree,
/// if it has one.
pub proof fn law_levels_go_down(
    g: StorageView,
    parent: Option<FragmentId>,
    levels: Seq<Seq<char>>,
    total: int,
    factor: int,
    session: Option<Seq<char>>,
    seeds: Seq<SeedView>,
    level: Seq<char>,
    seed: SeedView,
)
    requires
        seeds.len() == levels.len(),
        storing_levels(
            g,
            parent,
            levels.push(level),
            total,
            factor,
            session,
            seeds.push(seed),
        ).error is None,
    ensures
        storing_levels(g, parent, Seq::empty(), total, factor, session, Seq::empty()).last
            == parent,
        ({
            let before = storing_levels(g, parent, levels, total, factor, session, seeds);
            let after = storing_levels(
                g,
                parent,
                levels.push(level),
                total,
                factor,
                session,
                seeds.push(seed),
            );
            let f = level_fragment(
                level,
                levels.len() as int,
                total,
                top_depth(parent),
                factor,
                session,
                seed,
            );
            &&& before.error is None
            &&& after.last == Some(seed.id)
            &&& after.graph.fragments == before.graph.fragments.push(f)
            &&& before.last is None ==> after.graph.edges == before.graph.edges
            &&& before.last matches Some(p) ==> after.graph.edges == before.graph.edges.push(
                crate::edge::EdgeView {
                    id: seed.stamp.id,
                    source: p,
                    target: seed.id,
                    kind: EdgeKind::Hierarchical,
                    weight: 1_000_000_000,
                    content: None,
                    created_at: seed.stamp.now,
                },
            )
        }),
{
    assert(levels.push(level).drop_last() == levels);
    assert(seeds.push(seed).drop_last() == seeds);
}

/// What was added names a session, is active and fully relevant.
spec fn added_in(g: StorageView, after: StorageView, session: Option<Seq<char>>) -> bool {
    &&& only_adds(g, after)
    &&& forall|k: int|
        g.fragments.len() <= k < after.fragments.len() ==> (
        #[trigger] after.fragments[k]).source_session == session && after.fragments[k].superseded_by
            is None && after.fragments[k].relevance_score == ONE && after.fragments[k].access_count
            == 0
}

proof fn lemma_added_twice(
    a: StorageView,
    b: StorageView,
    c: StorageView,
    session: Option<Seq<char>>,
)
    requires
        added_in(a, b, session),
        added_in(b, c, session),
    ensures
        added_in(a, c, session),
{
    lemma_only_adds_twice(a, b, c);
    assert forall|k: int| a.fragments.len() <= k < c.fragments.len() implies (
    #[trigger] c.fragments[k]).source_session == session && c.fragments[k].superseded_by is None
        && c.fragments[k].relevance_score == ONE && c.fragments[k].access_count == 0 by {
        if k < b.fragments.len() {
            assert(c.fragments.take(b.fragments.len() as int)[k] == b.fragments[k]);
        }
    }
}

proof fn lemma_inserted_in(
    g: StorageView,
    content: Seq<char>,
    depth: u32,
    importance: int,
    session: Option<Seq<char>>,
    seed: SeedView,
    parent: Option<FragmentId>,
    stamp: Stamp,
)
    ensures
        added_in(
            g,
            crate::changes::inserting(
                g,
                seeded_fragment(content, depth, importance, session, seed),
                parent,
                stamp,
            ).graph,
            session,
        ),
{
    let f = seeded_fragment(content, depth, importance, session, seed);
    lemma_inserting_only_adds(g, f, parent, stamp);
}

proof fn lemma_linked_in(g: StorageView, e: crate::edge::EdgeView, session: Option<Seq<char>>)
    ensures
        added_in(g, crate::changes::linking(g, e).graph, session),
{
    lemma_linking_only_adds(g, e);
}

proof fn lemma_levels_in(
    g: StorageView,
    parent: Option<FragmentId>,
    levels: Seq<Seq<char>>,
    total: int,
    factor: int,
    session: Option<Seq<char>>,
    seeds: Seq<SeedView>,
)
    ensures
        added_in(
            g,
            storing_levels(g, parent, levels, total, factor, session, seeds).graph,
            session,
        ),
    decreases levels.len(),
{
    lemma_levels_only_add(g, parent, levels, total, factor, session, seeds);
    if levels.len() > 0 {
        let (front, some) = (levels.drop_last(), seeds.drop_last());
        let s = storing_levels(g, parent, front, total, factor, session, some);
        lemma_levels_in(g, parent, front, total, factor, session, some);
        if s.error is None {
            let depth = as_depth(top_depth(parent) + (levels.len() - 1));
            let importance = crate::fixed::product(
                base_importance(levels.len() - 1, total),
                factor,
            ) as int;
            let stamp = seeds.last().stamp;
            lemma_inserted_in(
                s.graph,
                levels.last(),
                depth,
                importance,
                session,
                seeds.last(),
                s.last,
                stamp,
            );
            let f = seeded_fragment(levels.last(), depth, importance, session, seeds.last());
            lemma_added_twice(
                g,
                s.graph,
                crate::changes::inserting(s.graph, f, s.last, stamp).graph,
                session,
            );
        }
    }
}

proof fn lemma_tree_in(
    g: StorageView,
    levels: Seq<Seq<char>>,
    session: Option<Seq<char>>,
    transcript: FragmentId,
    seeds: Seq<SeedView>,
    links: TreeStamps,
)
    ensures
        added_in(g, storing_tree(g, levels, session, transcript, seeds, links).graph, session),
{
    let factor = novelty_factor(crate::changes::root_similarity(g, seeds[0].embedding));
    let parent = crate::changes::close_root(g, seeds[0].embedding, HIGH_FIT);
    let total = levels.len() as int;
    let s = storing_levels(g, parent, levels, total, factor, session, seeds);
    lemma_levels_in(g, parent, levels, total, factor, session, seeds);
    if let (None, Some(id)) = (s.error, s.last) {
        let e = crate::changes::stamped_edge(
            id,
            transcript,
            EdgeKind::Associative,
            ONE,
            None,
            links.leaf,
        );
        let before = last_child(g, parent);
        let behind = put_behind(s.graph, before, seeds[0].id, links.sibling);
        if let Some(b) = before {
            lemma_linked_in(s.graph, sibling_edge(b, seeds[0].id, links.sibling), session);
            lemma_added_twice(g, s.graph, behind, session);
        }
        lemma_linked_in(behind, e, session);
        lemma_added_twice(g, behind, crate::changes::linking(behind, e).graph, session);
    }
}

proof fn lemma_trees_in(
    g: StorageView,
    trees: Seq<Seq<Seq<char>>>,
    session: Option<Seq<char>>,
    transcript: FragmentId,
    seeds: Seq<Seq<SeedView>>,
    links: Seq<TreeStamps>,
)
    ensures
        added_in(g, storing_trees(g, trees, session, transcript, seeds, links).graph, session),
    decreases trees.len(),
{
    lemma_trees_only_add(g, trees, session, transcript, seeds, links);
    if trees.len() > 0 {
        let s = storing_trees(
            g,
            trees.drop_last(),
            session,
            transcript,
            seeds.drop_last(),
            links.drop_last(),
        );
        lemma_trees_in(
            g,
            trees.drop_last(),
            session,
            transcript,
            seeds.drop_last(),
            links.drop_last(),
        );
        lemma_tree_in(s.graph, trees.last(), session, transcript, seeds.last(), links.last());
        lemma_added_twice(
            g,
            s.graph,
            storing_tree(
                s.graph,
                trees.last(),
                session,
                transcript,
                seeds.last(),
                links.last(),
            ).graph,
            session,
        );
    }
}

/// All that is stored of a conversation names its session, is active, fully relevant and
/// not accessed yet.
pub proof fn law_stored_names_its_session(
    g: StorageView,
    result: ResultView,
    source_session: Option<Seq<char>>,
    seeds: Seeds,
    k: int,
)
    requires
        g.fragments.len() <= k < storing_result(
            g,
            result,
            source_session,
            seeds,
        ).graph.fragments.len(),
    ensures
        ({
            let f = storing_result(g, result, source_session, seeds).graph.fragments[k];
            &&& f.source_session == source_session
            &&& f.superseded_by is None
            &&& f.relevance_score == 1_000_000_000
            &&& f.access_count == 0
        }),
{
    let t = transcript_fragment(result, source_session, seeds.transcript@);
    let stamp = seeds.transcript.stamp;
    let o = crate::changes::inserting(g, t, None, stamp);
    lemma_inserted_in(
        g,
        result.transcript,
        as_depth(most_levels(result.trees) as int + 1),
        100_000_000,
        source_session,
        seeds.transcript@,
        None,
        stamp,
    );
    if let Ok(id) = o.result {
        let lists = seed_lists(seeds.trees@);
        let s = storing_trees(o.graph, result.trees, source_session, id, lists, seeds.links@);
        lemma_trees_in(o.graph, result.trees, source_session, id, lists, seeds.links@);
        lemma_added_twice(g, o.graph, s.graph, source_session);
        lemma_relating_keeps(
            s.graph,
            result.relationships,
            tree_roots(result.trees, lists),
            seeds.relationships@,
        );
    }
}

} // verus!
