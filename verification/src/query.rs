//! The query engine: search, recall, and changes to the knowledge graph.
//!
//! Recall is not passive. A query reinforces what it returns, and primes the
//! neighbours of what it returns.

use vstd::prelude::*;

#[allow(unused_imports)]
use crate::edge::EdgeView;
use crate::embedding::cosine_similarity;
use crate::fixed::{multiply, ONE};
use crate::fragment::{now_unix, Fragment, FragmentId, ScoredFragment, Tree};
#[allow(unused_imports)]
use crate::fragment::{FragmentView, ScoredView, TreeView};
use crate::lists::rank;
use crate::relevance::{
    blend, compute_relevance, ACTIVATION_SPREAD_FACTOR, MIN_RELEVANCE_THRESHOLD,
};
use crate::storage::Storage;
#[allow(unused_imports)]
use crate::storage::StorageView;
use crate::text::{holds, to_chars, to_lowercase, to_words};

verus! {

/// The knowledge graph with its query engine.
#[derive(Debug)]
pub struct LoreDb {
    storage: Storage,
}

impl View for LoreDb {
    type V = StorageView;

    closed spec fn view(&self) -> StorageView {
        self.storage@
    }
}

// ---- scores ----

/// How many of some words stand in a content or in its summary.
pub open spec fn words_found(words: Seq<Seq<char>>, content: Seq<char>, summary: Seq<char>) -> nat
    decreases words.len(),
{
    if words.len() == 0 {
        0
    } else {
        let rest = words_found(words.drop_last(), content, summary);
        if crate::text::contains(content, words.last()) || crate::text::contains(
            summary,
            words.last(),
        ) {
            rest + 1
        } else {
            rest
        }
    }
}

/// How well a topic matches a content and its summary, all in lower case: 0.8
/// where it stands in one of them, and otherwise `0.3 + 0.4 * share` for the
/// share of its words that do; nothing where none does.
pub open spec fn text_match(topic: Seq<char>, content: Seq<char>, summary: Seq<char>) -> Option<i64> {
    let words = crate::text::words(topic);
    let n = words_found(words, content, summary);
    if crate::text::contains(content, topic) || crate::text::contains(summary, topic) {
        Some(800_000_000i64)
    } else if n > 0 {
        Some((300_000_000 + 400_000_000 * n / words.len()) as i64)
    } else {
        None
    }
}

/// How well a topic matches a fragment.
pub open spec fn fragment_match(topic: Seq<char>, f: FragmentView) -> Option<i64> {
    text_match(
        crate::text::lowercase(topic),
        crate::text::lowercase(f.content),
        crate::text::lowercase(f.summary),
    )
}

/// A fragment that a query by text finds, at a depth or at any.
pub open spec fn found_by_text(topic: Seq<char>, depth: Option<u32>) -> spec_fn(
    FragmentView,
) -> bool {
    |f: FragmentView|
        f.superseded_by is None && f.relevance_score > MIN_RELEVANCE_THRESHOLD && fragment_match(
            topic,
            f,
        ) is Some && match depth {
            Some(d) => f.depth == d,
            None => true,
        }
}

/// A fragment with the score of a query by text.
pub open spec fn scored_by_text(topic: Seq<char>) -> spec_fn(FragmentView) -> ScoredView {
    |f: FragmentView|
        ScoredView {
            fragment: f,
            score: crate::relevance::blended(
                fragment_match(topic, f)->0 as int,
                f.relevance_score as int,
            ),
        }
}

/// All that a query by text finds.
pub open spec fn text_hits(g: StorageView, topic: Seq<char>, depth: Option<u32>) -> Seq<
    ScoredView,
> {
    g.fragments.filter(found_by_text(topic, depth)).map_values(scored_by_text(topic))
}

/// A fragment that a query by embedding finds, at a depth or at any.
pub open spec fn found_by_embedding(depth: Option<u32>) -> spec_fn(FragmentView) -> bool {
    |f: FragmentView|
        f.embedding.len() > 0 && f.superseded_by is None && f.relevance_score
            > MIN_RELEVANCE_THRESHOLD && match depth {
            Some(d) => f.depth == d,
            None => true,
        }
}

/// A fragment with the score of a query by embedding.
pub open spec fn scored_by_embedding(embedding: Seq<i32>) -> spec_fn(FragmentView) -> ScoredView {
    |f: FragmentView|
        ScoredView {
            fragment: f,
            score: crate::relevance::blended(
                crate::embedding::similarity(embedding, f.embedding),
                f.relevance_score as int,
            ),
        }
}

/// All that a query by embedding finds.
pub open spec fn embedding_hits(g: StorageView, embedding: Seq<i32>, depth: Option<u32>) -> Seq<
    ScoredView,
> {
    g.fragments.filter(found_by_embedding(depth)).map_values(scored_by_embedding(embedding))
}

/// The scores of a list.
pub open spec fn score_keys(v: Seq<ScoredView>) -> Seq<int> {
    Seq::new(v.len(), |i: int| v[i].score as int)
}

/// The best of a list, up to a number of them, the best one first.
pub open spec fn best(v: Seq<ScoredView>, limit: int) -> Seq<ScoredView> {
    crate::lists::first_items(crate::lists::ranked(v, score_keys(v)), limit)
}

/// What a query returns: hits by embedding where the topic has one, and by text
/// otherwise.
pub open spec fn query_hits(
    g: StorageView,
    topic: Seq<char>,
    embedding: Option<Seq<i32>>,
    depth: u32,
    limit: int,
) -> Seq<ScoredView> {
    best(
        match embedding {
            Some(e) => embedding_hits(g, e, Some(depth)),
            None => text_hits(g, topic, Some(depth)),
        },
        limit,
    )
}

// ---- recall ----

/// The boost that an edge passes on.
pub open spec fn spread_boost(weight: i64) -> i64 {
    crate::fixed::product(
        ACTIVATION_SPREAD_FACTOR as int,
        if weight < ONE {
            weight as int
        } else {
            ONE as int
        },
    )
}

/// The fragments after some edges of a fragment passed their boosts on.
pub open spec fn spread(
    fs: Seq<FragmentView>,
    edges: Seq<EdgeView>,
    id: FragmentId,
    now: i64,
) -> Seq<FragmentView>
    decreases edges.len(),
{
    if edges.len() == 0 {
        fs
    } else {
        let e = edges.last();
        crate::storage::updated(
            spread(fs, edges.drop_last(), id, now),
            crate::storage::other_end(e, id),
            crate::storage::boosted(spread_boost(e.weight), now),
        )
    }
}

/// The relevance that a fragment has right after an access.
pub open spec fn recalled_relevance(f: FragmentView, now: i64) -> i64 {
    crate::relevance::relevance(
        f.importance as int,
        crate::storage::one_more(f.access_count) as nat,
        f.decay_rate as int,
        now as int,
        now as int,
    ) as i64
}

/// The graph after a fragment was recalled: it is reinforced, and all its edges
/// prime its neighbours.
pub open spec fn recalled(g: StorageView, id: FragmentId, now: i64) -> StorageView {
    match crate::storage::fragment_of(g.fragments, id) {
        Some(f) => StorageView {
            fragments: spread(
                crate::storage::updated(
                    g.fragments,
                    id,
                    crate::storage::reinforced(now, recalled_relevance(f, now)),
                ),
                g.edges.filter(crate::storage::touches(id)),
                id,
                now,
            ),
            ..g
        },
        None => g,
    }
}

/// The graph after the fragments of a list were recalled, one by one.
pub open spec fn all_recalled(g: StorageView, hits: Seq<ScoredView>, now: i64) -> StorageView
    decreases hits.len(),
{
    if hits.len() == 0 {
        g
    } else {
        recalled(all_recalled(g, hits.drop_last(), now), hits.last().fragment.id, now)
    }
}

// ---- trees ----

/// The tree below a fragment, down to a number of levels.
pub open spec fn tree_of(g: StorageView, f: FragmentView, depth: nat) -> TreeView
    decreases depth,
{
    TreeView {
        fragment: f,
        children: if depth > 0 {
            crate::storage::children_of(g, f.id).map_values(
                |c: FragmentView| tree_of(g, c, (depth - 1) as nat),
            )
        } else {
            Seq::empty()
        },
    }
}

/// The trees below the fragments of a list.
pub open spec fn trees_of(g: StorageView, fs: Seq<FragmentView>, depth: nat) -> Seq<TreeView> {
    fs.map_values(|c: FragmentView| tree_of(g, c, depth))
}

/// Ranks scored fragments, and keeps the best.
pub fn take_best(v: &Vec<ScoredFragment>, limit: usize) -> (r: Vec<ScoredFragment>)
    ensures
        crate::fragment::scored_views(r@) == best(crate::fragment::scored_views(v@), limit as int),
{
    let mut keys: Vec<i128> = Vec::new();
    let ghost views = crate::fragment::scored_views(v@);
    let mut i: usize = 0;
    while i < v.len()
        invariant
            i <= v.len(),
            views == crate::fragment::scored_views(v@),
            crate::lists::key_views(keys@) == score_keys(views).take(i as int),
        decreases v.len() - i,
    {
        let key: i128 = v[i].score as i128;
        proof {
            assert(score_keys(views)[i as int] == key);
            assert(crate::lists::key_views(keys@.push(key)) == crate::lists::key_views(keys@).push(
                key as int,
            ));
            assert(score_keys(views).take(i + 1) == score_keys(views).take(i as int).push(
                key as int,
            ));
        }
        keys.push(key);
        i = i + 1;
    }
    assert(score_keys(views).take(i as int) == score_keys(views));
    assert(keys.len() == v.len()) by {
        assert(crate::lists::key_views(keys@).len() == views.len());
    }
    let order = rank(&keys);
    let ghost places = crate::lists::place_views(order@);
    let count: usize = if order.len() <= limit {
        order.len()
    } else {
        limit
    };
    let mut out: Vec<ScoredFragment> = Vec::new();
    let mut k: usize = 0;
    while k < count
        invariant
            k <= count <= order.len(),
            order.len() == v.len(),
            views == crate::fragment::scored_views(v@),
            places == crate::lists::place_views(order@),
            forall|j: int| 0 <= j < order.len() ==> #[trigger] order[j] < v.len(),
            out.len() == k,
            forall|j: int| 0 <= j < k ==> (#[trigger] out@[j])@ == views[places[j]],
        decreases count - k,
    {
        let at: usize = order[k];
        assert(places[k as int] == at);
        out.push(ScoredFragment { fragment: v[at].fragment.clone(), score: v[at].score });
        k = k + 1;
    }
    assert(crate::fragment::scored_views(out@) == best(views, limit as int));
    out
}

/// Computes how well a topic matches a content and its summary, all in lower
/// case.
pub fn match_text(topic: &str, content: &str, summary: &str) -> (r: Option<i64>)
    ensures
        r == text_match(topic@, content@, summary@),
{
    let t: Vec<char> = to_chars(topic);
    let c: Vec<char> = to_chars(content);
    let s: Vec<char> = to_chars(summary);
    if holds(&c, &t) || holds(&s, &t) {
        return Some(800_000_000);
    }
    let words = to_words(&t);
    let ghost all = crate::text::words(t@);
    let mut n: usize = 0;
    let mut i: usize = 0;
    while i < words.len()
        invariant
            i <= words.len(),
            all == crate::text::char_views(words@),
            n <= i,
            n == words_found(all.take(i as int), c@, s@),
        decreases words.len() - i,
    {
        proof {
            assert(all.take(i + 1).drop_last() == all.take(i as int));
            assert(all.take(i + 1).last() == words@[i as int]@);
        }
        if holds(&c, &words[i]) || holds(&s, &words[i]) {
            n = n + 1;
        }
        i = i + 1;
    }
    assert(all.take(i as int) == all);
    if n == 0 {
        return None;
    }
    let share: u128 = 400_000_000 * (n as u128) / (words.len() as u128);
    proof {
        assert(400_000_000 * n / (words.len() as int) <= 400_000_000) by (nonlinear_arith)
            requires
                0 < n <= words.len(),
        ;
    }
    Some((300_000_000 + share) as i64)
}

impl LoreDb {
    /// The graph keeps the integrity of its references.
    pub open spec fn wf(&self) -> bool {
        crate::storage::is_sound(self@)
    }

    /// A query engine on a graph.
    pub fn new_without_embeddings(storage: Storage) -> (r: Self)
        ensures
            r@ == storage@,
    {
        LoreDb { storage }
    }

    /// The graph itself.
    pub fn storage(&self) -> (r: &Storage)
        ensures
            r@ == self@,
    {
        &self.storage
    }

    /// The graph itself, to be changed.
    pub fn storage_mut(&mut self) -> (r: &mut Storage)
        ensures
            r@ == old(self)@,
            final(self)@ == final(r)@,
    {
        &mut self.storage
    }

    /// All fragments that match a topic by text, with their scores.
    pub fn score_by_text(&self, topic: &str, depth: Option<u32>) -> (r: Vec<ScoredFragment>)
        requires
            self.wf(),
        ensures
            crate::fragment::scored_views(r@) == text_hits(self@, topic@, depth),
    {
        let ghost keep = found_by_text(topic@, depth);
        let ghost to = scored_by_text(topic@);
        let fragments = self.storage.fragments();
        let ghost fs = crate::fragment::fragment_views(fragments@);
        let lower = to_lowercase(topic);
        let mut out: Vec<ScoredFragment> = Vec::new();
        let mut i: usize = 0;
        proof {
            crate::lists::lemma_filter_none(fs, keep);
            assert(crate::fragment::scored_views(out@) == fs.take(0).filter(keep).map_values(to));
        }
        while i < fragments.len()
            invariant
                i <= fragments.len(),
                fs == crate::fragment::fragment_views(fragments@),
                lower@ == crate::text::lowercase(topic@),
                keep == found_by_text(topic@, depth),
                to == scored_by_text(topic@),
                crate::fragment::scored_views(out@) == fs.take(i as int).filter(keep).map_values(to),
            decreases fragments.len() - i,
        {
            let f = &fragments[i];
            let ghost seen = fs.take(i as int).filter(keep);
            proof {
                crate::lists::lemma_filter_next(fs, keep, i as int);
                assert(fs[i as int] == f@);
                assert(seen.push(f@).map_values(to) == seen.map_values(to).push(to(f@)));
            }
            let right_depth: bool = match depth {
                Some(d) => f.depth == d,
                None => true,
            };
            if right_depth && f.superseded_by.is_none() && f.relevance_score
                > MIN_RELEVANCE_THRESHOLD {
                let content = to_lowercase(f.content.as_str());
                let summary = to_lowercase(f.summary.as_str());
                if let Some(m) = match_text(lower.as_str(), content.as_str(), summary.as_str()) {
                    let s = ScoredFragment {
                        fragment: f.clone(),
                        score: blend(m, f.relevance_score),
                    };
                    assert(crate::fragment::scored_views(out@.push(s))
                        == crate::fragment::scored_views(out@).push(s@));
                    out.push(s);
                }
            }
            i = i + 1;
        }
        assert(fs.take(i as int) == fs);
        out
    }

    /// All fragments with an embedding, with their scores.
    pub fn score_by_embedding(&self, embedding: &Vec<i32>, depth: Option<u32>) -> (r: Vec<
        ScoredFragment,
    >)
        requires
            self.wf(),
        ensures
            crate::fragment::scored_views(r@) == embedding_hits(self@, embedding@, depth),
    {
        let ghost base = crate::storage::embedded(depth);
        let ghost keep = found_by_embedding(depth);
        let ghost to = scored_by_embedding(embedding@);
        let fragments = self.storage.get_fragments_with_embeddings(depth);
        let ghost fs = crate::fragment::fragment_views(fragments@);
        let mut out: Vec<ScoredFragment> = Vec::new();
        let mut i: usize = 0;
        proof {
            crate::lists::lemma_filter_none(fs, keep);
            assert(crate::fragment::scored_views(out@) == fs.take(0).filter(keep).map_values(to));
            crate::lists::lemma_filter_members(self@.fragments, base);
        }
        while i < fragments.len()
            invariant
                i <= fragments.len(),
                fs == crate::fragment::fragment_views(fragments@),
                base == crate::storage::embedded(depth),
                keep == found_by_embedding(depth),
                to == scored_by_embedding(embedding@),
                crate::fragment::scored_views(out@) == fs.take(i as int).filter(keep).map_values(to),
                forall|k: int| 0 <= k < fs.len() ==> base(#[trigger] fs[k]),
            decreases fragments.len() - i,
        {
            let f = &fragments[i];
            let ghost seen = fs.take(i as int).filter(keep);
            proof {
                crate::lists::lemma_filter_next(fs, keep, i as int);
                assert(fs[i as int] == f@);
                assert(base(fs[i as int]));
                assert(seen.push(f@).map_values(to) == seen.map_values(to).push(to(f@)));
            }
            if f.relevance_score > MIN_RELEVANCE_THRESHOLD {
                let s = ScoredFragment {
                    fragment: f.clone(),
                    score: blend(cosine_similarity(embedding, &f.embedding), f.relevance_score),
                };
                assert(crate::fragment::scored_views(out@.push(s))
                    == crate::fragment::scored_views(out@).push(s@));
                out.push(s);
            }
            i = i + 1;
        }
        proof {
            assert(fs.take(i as int) == fs);
            lemma_filter_twice(self@.fragments, base, keep);
        }
        out
    }
}

/// Filtering by a condition and then by one that implies it comes to filtering
/// by the latter.
pub proof fn lemma_filter_twice<A>(s: Seq<A>, base: spec_fn(A) -> bool, keep: spec_fn(A) -> bool)
    requires
        forall|x: A| #[trigger] keep(x) ==> base(x),
    ensures
        s.filter(base).filter(keep) == s.filter(keep),
    decreases s.len(),
{
    reveal(Seq::filter);
    if s.len() > 0 {
        lemma_filter_twice(s.drop_last(), base, keep);
        if base(s.last()) {
            assert(s.drop_last().filter(base).push(s.last()).drop_last() == s.drop_last().filter(
                base,
            ));
        }
    }
}

impl LoreDb {
    /// Reinforces a fragment on access: counts the access, renews its relevance,
    /// and primes its neighbours.
    pub fn reinforce_on_access(&mut self, id: FragmentId, now: i64)
        requires
            old(self).wf(),
        ensures
            final(self).wf(),
            final(self)@ == recalled(old(self)@, id, now),
    {
        if let Some(frag) = self.storage.get_fragment(id) {
            let count: u32 = if frag.access_count < u32::MAX {
                frag.access_count + 1
            } else {
                frag.access_count
            };
            let relevance: i64 = compute_relevance(
                frag.importance,
                count,
                frag.decay_rate,
                now,
                now,
            );
            self.storage.reinforce_fragment(id, now, relevance);
            self.spread_activation(id, now);
        }
    }

    /// Primes the neighbours of a fragment.
    pub fn spread_activation(&mut self, id: FragmentId, now: i64)
        requires
            old(self).wf(),
        ensures
            final(self).wf(),
            final(self)@ == (StorageView {
                fragments: spread(
                    old(self)@.fragments,
                    old(self)@.edges.filter(crate::storage::touches(id)),
                    id,
                    now,
                ),
                ..old(self)@
            }),
    {
        let ghost before = self@;
        let edges = self.storage.get_edges_for(id);
        let ghost es = crate::edge::edge_views(edges@);
        let mut i: usize = 0;
        assert(es.take(0) == Seq::<EdgeView>::empty());
        while i < edges.len()
            invariant
                self.wf(),
                i <= edges.len(),
                es == crate::edge::edge_views(edges@),
                self@ == (StorageView {
                    fragments: spread(before.fragments, es.take(i as int), id, now),
                    ..before
                }),
            decreases edges.len() - i,
        {
            let edge = &edges[i];
            proof {
                assert(es.take(i + 1).drop_last() == es.take(i as int));
                assert(es.take(i + 1).last() == edge@);
            }
            let neighbour: FragmentId = if edge.source == id {
                edge.target
            } else {
                edge.source
            };
            let weight: i64 = if edge.weight < ONE {
                edge.weight
            } else {
                ONE
            };
            let boost: i64 = multiply(ACTIVATION_SPREAD_FACTOR, weight);
            self.storage.boost_relevance(neighbour, boost, now);
            i = i + 1;
        }
        assert(es.take(i as int) == es);
    }

    /// Recalls the fragments of a list, one by one.
    pub fn recall_all(&mut self, found: &Vec<ScoredFragment>, now: i64)
        requires
            old(self).wf(),
        ensures
            final(self).wf(),
            final(self)@ == all_recalled(
                old(self)@,
                crate::fragment::scored_views(found@),
                now,
            ),
    {
        let ghost before = self@;
        let ghost hits = crate::fragment::scored_views(found@);
        let mut i: usize = 0;
        assert(hits.take(0) == Seq::<ScoredView>::empty());
        while i < found.len()
            invariant
                self.wf(),
                i <= found.len(),
                hits == crate::fragment::scored_views(found@),
                self@ == all_recalled(before, hits.take(i as int), now),
            decreases found.len() - i,
        {
            proof {
                assert(hits.take(i + 1).drop_last() == hits.take(i as int));
                assert(hits.take(i + 1).last() == found@[i as int]@);
            }
            self.reinforce_on_access(found[i].fragment.id, now);
            i = i + 1;
        }
        assert(hits.take(i as int) == hits);
    }

    /// Searches for a topic at a depth, as of a given time: by the embedding of
    /// the topic where there is one, by its text otherwise. What is found is
    /// returned as it was, and reinforced.
    pub fn query_at(
        &mut self,
        topic: &str,
        embedding: Option<&Vec<i32>>,
        depth: u32,
        limit: usize,
        now: i64,
    ) -> (r: Vec<ScoredFragment>)
        requires
            old(self).wf(),
        ensures
            final(self).wf(),
            crate::fragment::scored_views(r@) == query_hits(
                old(self)@,
                topic@,
                crate::storage::numbers_view(embedding),
                depth,
                limit as int,
            ),
            final(self)@ == all_recalled(old(self)@, crate::fragment::scored_views(r@), now),
    {
        let scored = match embedding {
            Some(e) => self.score_by_embedding(e, Some(depth)),
            None => self.score_by_text(topic, Some(depth)),
        };
        let found = take_best(&scored, limit);
        self.recall_all(&found, now);
        found
    }

    /// Searches for a topic at a depth, as [`LoreDb::query_at`] does, as of now.
    pub fn query(
        &mut self,
        topic: &str,
        embedding: Option<&Vec<i32>>,
        depth: u32,
        limit: usize,
    ) -> (r: Vec<ScoredFragment>)
        requires
            old(self).wf(),
        ensures
            final(self).wf(),
            crate::fragment::scored_views(r@) == query_hits(
                old(self)@,
                topic@,
                crate::storage::numbers_view(embedding),
                depth,
                limit as int,
            ),
            exists|now: i64|
                now >= 0 && final(self)@ == #[trigger] all_recalled(
                    old(self)@,
                    crate::fragment::scored_views(r@),
                    now,
                ),
    {
        let now: i64 = now_unix();
        self.query_at(topic, embedding, depth, limit, now)
    }

    /// Searches all depths by embedding. What is found is not reinforced.
    pub fn search_semantic(&self, embedding: &Vec<i32>, top_k: usize) -> (r: Vec<ScoredFragment>)
        requires
            self.wf(),
        ensures
            crate::fragment::scored_views(r@) == best(
                embedding_hits(self@, embedding@, None),
                top_k as int,
            ),
    {
        take_best(&self.score_by_embedding(embedding, None), top_k)
    }

    /// The children of a fragment, one level down the tree.
    pub fn children(&self, id: FragmentId) -> (r: Vec<Fragment>)
        requires
            self.wf(),
        ensures
            crate::fragment::fragment_views(r@) == crate::storage::children_of(self@, id),
    {
        self.storage.get_children(id)
    }

    /// The parent of a fragment, one level up the tree.
    pub fn parent(&self, id: FragmentId) -> (r: Option<Fragment>)
        requires
            self.wf(),
        ensures
            match r {
                Some(f) => crate::storage::parent_of(self@, id) == Some(f@),
                None => crate::storage::parent_of(self@, id) is None,
            },
    {
        self.storage.get_parent(id)
    }

    /// The fragments that associative edges connect a fragment with.
    pub fn associations(&self, id: FragmentId) -> (r: Vec<Fragment>)
        requires
            self.wf(),
        ensures
            crate::fragment::fragment_views(r@) == crate::storage::associations_of(self@, id),
    {
        self.storage.get_associations(id)
    }

    /// The tree below a fragment, down to a number of levels.
    fn build_tree(&self, fragment: Fragment, remaining_depth: u32) -> (r: Tree)
        requires
            self.wf(),
        ensures
            crate::fragment::tree_view(r) == tree_of(self@, fragment@, remaining_depth as nat),
        decreases remaining_depth,
    {
        let mut children: Vec<Tree> = Vec::new();
        if remaining_depth > 0 {
            let below = self.children(fragment.id);
            let ghost fs = crate::fragment::fragment_views(below@);
            let ghost d = (remaining_depth - 1) as nat;
            let mut i: usize = 0;
            assert(crate::fragment::forest_view(children@) == trees_of(self@, fs, d).take(0));
            while i < below.len()
                invariant
                    self.wf(),
                    remaining_depth > 0,
                    d == remaining_depth - 1,
                    i <= below.len(),
                    fs == crate::fragment::fragment_views(below@),
                    crate::fragment::forest_view(children@) == trees_of(self@, fs, d).take(i as int),
                decreases below.len() - i,
            {
                let child = self.build_tree(below[i].clone(), remaining_depth - 1);
                proof {
                    assert(fs[i as int] == below@[i as int]@);
                    assert(children@.push(child).drop_last() == children@);
                    assert(trees_of(self@, fs, d).take(i + 1) == trees_of(self@, fs, d).take(
                        i as int,
                    ).push(tree_of(self@, fs[i as int], d)));
                }
                children.push(child);
                i = i + 1;
            }
            proof {
                assert(trees_of(self@, fs, d).take(i as int) == trees_of(self@, fs, d));
                assert(trees_of(self@, fs, d) =~= tree_of(
                    self@,
                    fragment@,
                    remaining_depth as nat,
                ).children);
            }
        }
        Tree { fragment, children }
    }

    /// The tree below the fragment with an identifier, down to a number of
    /// levels.
    pub fn subtree(&self, id: FragmentId, max_depth: u32) -> (r: Option<Tree>)
        requires
            self.wf(),
        ensures
            match (r, crate::storage::fragment_of(self@.fragments, id)) {
                (Some(t), Some(f)) => crate::fragment::tree_view(t) == tree_of(
                    self@,
                    f,
                    max_depth as nat,
                ),
                (None, None) => true,
                _ => false,
            },
    {
        match self.storage.get_fragment(id) {
            Some(f) => Some(self.build_tree(f, max_depth)),
            None => None,
        }
    }
}

// ---- roots ----

/// The relevance scores of a list.
pub open spec fn relevance_keys(fs: Seq<FragmentView>) -> Seq<int> {
    Seq::new(fs.len(), |i: int| fs[i].relevance_score as int)
}

/// The active roots, the most relevant first.
pub open spec fn roots_of(g: StorageView) -> Seq<FragmentView> {
    let fs = g.fragments.filter(crate::storage::at_depth(0));
    crate::lists::ranked(fs, relevance_keys(fs))
}

/// The trees of what a query found, read after the query.
pub open spec fn trees_found(g: StorageView, hits: Seq<ScoredView>, depth: nat) -> Seq<TreeView> {
    Seq::new(
        hits.len(),
        |i: int|
            tree_of(g, crate::storage::fragment_of(g.fragments, hits[i].fragment.id)->0, depth),
    )
}

/// Recalling a fragment neither adds nor removes one.
pub proof fn law_recall_keeps_fragments(g: StorageView, id: FragmentId, now: i64, x: FragmentId)
    ensures
        crate::storage::has_fragment(recalled(g, id, now).fragments, x)
            <==> crate::storage::has_fragment(g.fragments, x),
        recalled(g, id, now).edges == g.edges,
        recalled(g, id, now).fragments.len() == g.fragments.len(),
{
    if let Some(f) = crate::storage::fragment_of(g.fragments, id) {
        let change = crate::storage::reinforced(now, recalled_relevance(f, now));
        crate::storage::lemma_updated_has(g.fragments, id, change, x);
        lemma_spread_has(
            crate::storage::updated(g.fragments, id, change),
            g.edges.filter(crate::storage::touches(id)),
            id,
            now,
            x,
        );
    }
}

/// What boosts do to a fragment: they change nothing but its relevance and the
/// time of its last access, and lower no relevance.
pub open spec fn is_primed(before: FragmentView, after: FragmentView) -> bool {
    &&& after == (FragmentView {
        relevance_score: after.relevance_score,
        last_accessed: after.last_accessed,
        ..before
    })
    &&& before.relevance_score <= ONE ==> before.relevance_score <= after.relevance_score <= ONE
}

/// No edge has a negative weight.
pub open spec fn no_negative_weight(edges: Seq<EdgeView>) -> bool {
    forall|i: int| 0 <= i < edges.len() ==> (#[trigger] edges[i]).weight >= 0
}

proof fn lemma_spread_primes(
    fs: Seq<FragmentView>,
    edges: Seq<EdgeView>,
    id: FragmentId,
    now: i64,
    k: int,
)
    requires
        0 <= k < fs.len(),
        no_negative_weight(edges),
    ensures
        spread(fs, edges, id, now).len() == fs.len(),
        is_primed(fs[k], spread(fs, edges, id, now)[k]),
    decreases edges.len(),
{
    if edges.len() > 0 {
        let e = edges.last();
        assert(edges[edges.len() - 1] == e);
        assert forall|i: int| 0 <= i < edges.drop_last().len() implies (
        #[trigger] edges.drop_last()[i]).weight >= 0 by {
            assert(edges[i].weight >= 0);
        }
        lemma_spread_primes(fs, edges.drop_last(), id, now, k);
        let w = if e.weight < ONE {
            e.weight as int
        } else {
            ONE as int
        };
        assert(ACTIVATION_SPREAD_FACTOR * w >= 0) by (nonlinear_arith)
            requires
                w >= 0,
                ACTIVATION_SPREAD_FACTOR == 100_000_000,
        ;
        assert(spread_boost(e.weight) >= 0);
        crate::storage::law_boost_is_capped(
            spread(fs, edges.drop_last(), id, now)[k].relevance_score,
            spread_boost(e.weight),
        );
    }
}

/// Recalling a fragment reinforces it: the access is counted, and its decay
/// starts anew. Nothing else of it changes but its relevance.
pub proof fn law_recall_reinforces(g: StorageView, id: FragmentId, now: i64, k: int)
    requires
        crate::storage::unique_fragments(g.fragments),
        no_negative_weight(g.edges),
        0 <= k < g.fragments.len(),
        g.fragments[k].id == id,
    ensures
        ({
            let before = g.fragments[k];
            let after = recalled(g, id, now).fragments[k];
            &&& after == (FragmentView {
                access_count: crate::storage::one_more(before.access_count),
                last_reinforced: now,
                last_accessed: after.last_accessed,
                relevance_score: after.relevance_score,
                ..before
            })
            &&& after.relevance_score >= recalled_relevance(before, now)
        }),
{
    let f = g.fragments[k];
    crate::storage::lemma_fragment_at(g.fragments, k);
    let edges = g.edges.filter(crate::storage::touches(id));
    let reinforced = crate::storage::updated(
        g.fragments,
        id,
        crate::storage::reinforced(now, recalled_relevance(f, now)),
    );
    lemma_filter_weights(g.edges, crate::storage::touches(id));
    lemma_spread_primes(reinforced, edges, id, now, k);
}

/// Recalling a fragment never lowers its relevance, where that is at most what the
/// formula gave for it at any time.
pub proof fn law_recall_never_weakens(g: StorageView, id: FragmentId, now: i64, k: int, at: int)
    requires
        crate::storage::unique_fragments(g.fragments),
        no_negative_weight(g.edges),
        0 <= k < g.fragments.len(),
        g.fragments[k].id == id,
        ({
            let f = g.fragments[k];
            &&& f.importance >= 0
            &&& f.decay_rate >= 0
            &&& f.relevance_score <= crate::relevance::relevance(
                f.importance as int,
                f.access_count as nat,
                f.decay_rate as int,
                f.last_reinforced as int,
                at,
            )
        }),
    ensures
        g.fragments[k].relevance_score <= recalled(g, id, now).fragments[k].relevance_score,
{
    let f = g.fragments[k];
    let n = crate::storage::one_more(f.access_count) as nat;
    let since = f.last_reinforced as int;
    crate::relevance::law_access_strengthens(
        f.importance,
        f.access_count as nat,
        n,
        f.decay_rate as int,
        since,
        at,
    );
    let first = if at < since {
        at
    } else {
        since
    };
    crate::relevance::law_time_fades(f.importance, n, f.decay_rate as int, since, first, at);
    assert(f.decay_rate * 0 == 0);
    law_recall_reinforces(g, id, now, k);
}

/// Recalling a fragment primes others: none of them loses relevance, and nothing
/// of them changes but their relevance and the time of their last access.
pub proof fn law_recall_primes(g: StorageView, id: FragmentId, now: i64, k: int)
    requires
        crate::storage::unique_fragments(g.fragments),
        no_negative_weight(g.edges),
        0 <= k < g.fragments.len(),
        g.fragments[k].id != id,
    ensures
        is_primed(g.fragments[k], recalled(g, id, now).fragments[k]),
{
    if let Some(f) = crate::storage::fragment_of(g.fragments, id) {
        let edges = g.edges.filter(crate::storage::touches(id));
        let reinforced = crate::storage::updated(
            g.fragments,
            id,
            crate::storage::reinforced(now, recalled_relevance(f, now)),
        );
        lemma_filter_weights(g.edges, crate::storage::touches(id));
        lemma_spread_primes(reinforced, edges, id, now, k);
        assert(reinforced[k] == g.fragments[k]);
    }
}

proof fn lemma_filter_weights(edges: Seq<EdgeView>, keep: spec_fn(EdgeView) -> bool)
    requires
        no_negative_weight(edges),
    ensures
        no_negative_weight(edges.filter(keep)),
{
    crate::lists::lemma_filter_members(edges, keep);
    assert forall|i: int| 0 <= i < edges.filter(keep).len() implies (#[trigger] edges.filter(
        keep,
    )[i]).weight >= 0 by {
        let e = edges.filter(keep)[i];
        assert(edges.contains(e));
        let j = choose|j: int| 0 <= j < edges.len() && edges[j] == e;
        assert(edges[j].weight >= 0);
    }
}

proof fn lemma_spread_has(
    fs: Seq<FragmentView>,
    edges: Seq<EdgeView>,
    id: FragmentId,
    now: i64,
    x: FragmentId,
)
    ensures
        crate::storage::has_fragment(spread(fs, edges, id, now), x)
            <==> crate::storage::has_fragment(fs, x),
        spread(fs, edges, id, now).len() == fs.len(),
    decreases edges.len(),
{
    if edges.len() > 0 {
        let e = edges.last();
        lemma_spread_has(fs, edges.drop_last(), id, now, x);
        crate::storage::lemma_updated_has(
            spread(fs, edges.drop_last(), id, now),
            crate::storage::other_end(e, id),
            crate::storage::boosted(spread_boost(e.weight), now),
            x,
        );
    }
}

proof fn lemma_all_recalled_has(g: StorageView, hits: Seq<ScoredView>, now: i64, x: FragmentId)
    ensures
        crate::storage::has_fragment(all_recalled(g, hits, now).fragments, x)
            <==> crate::storage::has_fragment(g.fragments, x),
    decreases hits.len(),
{
    if hits.len() > 0 {
        lemma_all_recalled_has(g, hits.drop_last(), now, x);
        law_recall_keeps_fragments(
            all_recalled(g, hits.drop_last(), now),
            hits.last().fragment.id,
            now,
            x,
        );
    }
}

/// The best of some hits are hits.
pub proof fn lemma_best_member(v: Seq<ScoredView>, limit: int, i: int)
    requires
        0 <= i < best(v, limit).len(),
        limit >= 0,
    ensures
        v.contains(best(v, limit)[i]),
{
    crate::lists::law_ranking(score_keys(v));
    let k = crate::lists::ranking(score_keys(v))[i];
    assert(best(v, limit)[i] == v[k]);
}

/// What a query finds exists, is active, lies at the depth asked for, and is
/// not forgotten; there are no more than asked for, and no better one comes
/// after a worse one.
pub proof fn law_query_hits(
    g: StorageView,
    topic: Seq<char>,
    embedding: Option<Seq<i32>>,
    depth: u32,
    limit: int,
)
    requires
        limit >= 0,
    ensures
        query_hits(g, topic, embedding, depth, limit).len() <= limit,
        forall|i: int|
            0 <= i < query_hits(g, topic, embedding, depth, limit).len() ==> {
                let f = (#[trigger] query_hits(g, topic, embedding, depth, limit)[i]).fragment;
                &&& g.fragments.contains(f)
                &&& f.superseded_by is None
                &&& f.depth == depth
                &&& f.relevance_score > MIN_RELEVANCE_THRESHOLD
            },
        forall|i: int, j: int|
            0 <= i < j < query_hits(g, topic, embedding, depth, limit).len() ==> (
            #[trigger] query_hits(g, topic, embedding, depth, limit)[i]).score >= (
            #[trigger] query_hits(g, topic, embedding, depth, limit)[j]).score,
{
    let keep = match embedding {
        Some(_) => found_by_embedding(Some(depth)),
        None => found_by_text(topic, Some(depth)),
    };
    let to = match embedding {
        Some(e) => scored_by_embedding(e),
        None => scored_by_text(topic),
    };
    let kept = g.fragments.filter(keep);
    let all = kept.map_values(to);
    let hits = query_hits(g, topic, embedding, depth, limit);
    assert(hits == best(all, limit));
    crate::lists::lemma_filter_members(g.fragments, keep);
    crate::lists::law_ranking(score_keys(all));
    let order = crate::lists::ranking(score_keys(all));
    assert forall|i: int| 0 <= i < hits.len() implies {
        let f = (#[trigger] hits[i]).fragment;
        &&& g.fragments.contains(f)
        &&& f.superseded_by is None
        &&& f.depth == depth
        &&& f.relevance_score > MIN_RELEVANCE_THRESHOLD
    } by {
        let k = order[i];
        assert(hits[i] == all[k]);
        assert(all[k].fragment == kept[k]);
        assert(keep(kept[k]));
    }
    assert forall|i: int, j: int| 0 <= i < j < hits.len() implies (#[trigger] hits[i]).score >= (
    #[trigger] hits[j]).score by {
        assert(crate::lists::in_order(score_keys(all), order[i], order[j]));
        assert(hits[i] == all[order[i]]);
        assert(hits[j] == all[order[j]]);
    }
}

/// The best of a list come from the list, no better one after a worse one, and
/// no better one is left out.
pub proof fn law_best(v: Seq<ScoredView>, limit: int)
    requires
        limit >= 0,
    ensures
        best(v, limit).len() == if v.len() <= limit {
            v.len() as int
        } else {
            limit
        },
        forall|i: int| 0 <= i < best(v, limit).len() ==> v.contains(#[trigger] best(v, limit)[i]),
        forall|i: int, j: int|
            0 <= i < j < best(v, limit).len() ==> (#[trigger] best(v, limit)[i]).score >= (
            #[trigger] best(v, limit)[j]).score,
        forall|k: int|
            0 <= k < v.len() ==> best(v, limit).contains(#[trigger] v[k]) || (best(v, limit).len()
                == limit && forall|j: int|
                0 <= j < best(v, limit).len() ==> (#[trigger] best(v, limit)[j]).score
                    >= v[k].score),
{
    let hits = best(v, limit);
    crate::lists::law_ranking(score_keys(v));
    let order = crate::lists::ranking(score_keys(v));
    assert forall|i: int| 0 <= i < hits.len() implies v.contains(#[trigger] hits[i]) by {
        assert(hits[i] == v[order[i]]);
    }
    assert forall|i: int, j: int| 0 <= i < j < hits.len() implies (#[trigger] hits[i]).score >= (
    #[trigger] hits[j]).score by {
        assert(crate::lists::in_order(score_keys(v), order[i], order[j]));
        assert(hits[i] == v[order[i]]);
        assert(hits[j] == v[order[j]]);
    }
    assert forall|k: int| 0 <= k < v.len() implies hits.contains(#[trigger] v[k]) || (hits.len()
        == limit && forall|j: int|
        0 <= j < hits.len() ==> (#[trigger] hits[j]).score >= v[k].score) by {
        assert(order.contains(k));
        let p = choose|p: int| 0 <= p < order.len() && order[p] == k;
        if p < hits.len() {
            assert(hits[p] == v[k]);
        } else {
            assert forall|j: int| 0 <= j < hits.len() implies (#[trigger] hits[j]).score
                >= v[k].score by {
                assert(crate::lists::in_order(score_keys(v), order[j], order[p]));
                assert(hits[j] == v[order[j]]);
            }
        }
    }
}

/// A fragment that a query can find, with the score that it gets.
pub open spec fn candidate(
    topic: Seq<char>,
    embedding: Option<Seq<i32>>,
    depth: u32,
    f: FragmentView,
) -> Option<ScoredView> {
    match embedding {
        Some(e) => if found_by_embedding(Some(depth))(f) {
            Some(scored_by_embedding(e)(f))
        } else {
            None
        },
        None => if found_by_text(topic, Some(depth))(f) {
            Some(scored_by_text(topic)(f))
        } else {
            None
        },
    }
}

/// A query misses nothing: what it can find, it returns, unless it returns as
/// many as were asked for and none of them scores less.
pub proof fn law_query_misses_nothing(
    g: StorageView,
    topic: Seq<char>,
    embedding: Option<Seq<i32>>,
    depth: u32,
    limit: int,
    f: FragmentView,
)
    requires
        limit >= 0,
        g.fragments.contains(f),
        candidate(topic, embedding, depth, f) is Some,
    ensures
        ({
            let hits = query_hits(g, topic, embedding, depth, limit);
            let s = candidate(topic, embedding, depth, f)->0;
            hits.contains(s) || (hits.len() == limit && forall|j: int|
                0 <= j < hits.len() ==> (#[trigger] hits[j]).score >= s.score)
        }),
{
    let keep = match embedding {
        Some(_) => found_by_embedding(Some(depth)),
        None => found_by_text(topic, Some(depth)),
    };
    let to = match embedding {
        Some(e) => scored_by_embedding(e),
        None => scored_by_text(topic),
    };
    let kept = g.fragments.filter(keep);
    let all = kept.map_values(to);
    let hits = query_hits(g, topic, embedding, depth, limit);
    let s = candidate(topic, embedding, depth, f)->0;
    assert(hits == best(all, limit));
    crate::lists::lemma_filter_members(g.fragments, keep);
    let i = choose|i: int| 0 <= i < g.fragments.len() && g.fragments[i] == f;
    assert(keep(g.fragments[i]));
    let k = choose|k: int| 0 <= k < kept.len() && kept[k] == f;
    assert(all[k] == s);
    law_best(all, limit);
    assert(all[k] == s);
}

/// The roots are the active fragments at depth zero, each of them once, and none
/// behind one that is less relevant.
pub proof fn law_roots(g: StorageView)
    requires
        crate::storage::unique_fragments(g.fragments),
    ensures
        forall|f: FragmentView|
            #![trigger roots_of(g).contains(f)]
            roots_of(g).contains(f) <==> g.fragments.contains(f) && f.depth == 0 && f.superseded_by
                is None,
        crate::storage::unique_fragments(roots_of(g)),
        forall|i: int, j: int|
            0 <= i < j < roots_of(g).len() ==> (#[trigger] roots_of(g)[i]).relevance_score >= (
            #[trigger] roots_of(g)[j]).relevance_score,
{
    let keep = crate::storage::at_depth(0);
    let fs = g.fragments.filter(keep);
    let keys = relevance_keys(fs);
    let order = crate::lists::ranking(keys);
    let roots = roots_of(g);
    crate::lists::law_ranking(keys);
    crate::lists::lemma_filter_members(g.fragments, keep);
    crate::storage::lemma_filtered_unique(g.fragments, keep);
    assert forall|f: FragmentView| #[trigger] roots.contains(f) implies g.fragments.contains(f)
        && f.depth == 0 && f.superseded_by is None by {
        let i = choose|i: int| 0 <= i < roots.len() && roots[i] == f;
        assert(roots[i] == fs[order[i]]);
        assert(keep(fs[order[i]]));
    }
    assert forall|f: FragmentView|
        g.fragments.contains(f) && f.depth == 0 && f.superseded_by is None implies
        #[trigger] roots.contains(f) by {
        let i = choose|i: int| 0 <= i < g.fragments.len() && g.fragments[i] == f;
        assert(keep(g.fragments[i]));
        let k = choose|k: int| 0 <= k < fs.len() && fs[k] == f;
        assert(order.contains(k));
        let m = choose|m: int| 0 <= m < order.len() && order[m] == k;
        assert(roots[m] == f);
    }
    assert forall|i: int, j: int| 0 <= i < j < roots.len() implies (#[trigger] roots[i]).id != (
    #[trigger] roots[j]).id && roots[i].relevance_score >= roots[j].relevance_score by {
        assert(crate::lists::in_order(keys, order[i], order[j]));
        assert(roots[i] == fs[order[i]] && roots[j] == fs[order[j]]);
        if order[i] < order[j] {
            assert(fs[order[i]].id != fs[order[j]].id);
        } else {
            assert(fs[order[j]].id != fs[order[i]].id);
        }
    }
}

/// Whether a query by embedding can find a fragment at a depth: it is active, has
/// an embedding, and has not faded to 0.05 or below.
pub open spec fn is_in_reach(f: FragmentView, depth: u32) -> bool {
    &&& f.superseded_by is None
    &&& f.embedding.len() > 0
    &&& f.relevance_score > 50_000_000
    &&& f.depth == depth
}

/// A query by embedding finds what is in its reach and nothing else, each with the
/// blend of its similarity and its relevance for a score, and leaves nothing out
/// unless it returns as many as were asked for and none of them scores less.
pub proof fn law_query_by_embedding(
    g: StorageView,
    topic: Seq<char>,
    e: Seq<i32>,
    depth: u32,
    limit: int,
    f: FragmentView,
)
    requires
        limit >= 0,
    ensures
        ({
            let hits = query_hits(g, topic, Some(e), depth, limit);
            let score = crate::relevance::blended(
                crate::embedding::similarity(e, f.embedding),
                f.relevance_score as int,
            );
            &&& forall|i: int|
                0 <= i < hits.len() && (#[trigger] hits[i]).fragment == f ==> hits[i].score == score
                    && g.fragments.contains(f) && is_in_reach(f, depth)
            &&& g.fragments.contains(f) && is_in_reach(f, depth) ==> hits.contains(
                ScoredView { fragment: f, score },
            ) || (hits.len() == limit && forall|j: int|
                0 <= j < hits.len() ==> (#[trigger] hits[j]).score >= score)
        }),
{
    let hits = query_hits(g, topic, Some(e), depth, limit);
    let all = embedding_hits(g, e, Some(depth));
    law_query_hits(g, topic, Some(e), depth, limit);
    assert forall|i: int| 0 <= i < hits.len() && (#[trigger] hits[i]).fragment == f implies hits[i]
        == scored_by_embedding(e)(f) && found_by_embedding(Some(depth))(f) by {
        lemma_best_member(all, limit, i);
        let k = choose|k: int| 0 <= k < all.len() && all[k] == hits[i];
        let kept = g.fragments.filter(found_by_embedding(Some(depth)));
        crate::lists::lemma_filter_members(g.fragments, found_by_embedding(Some(depth)));
        assert(all[k] == scored_by_embedding(e)(kept[k]));
        assert(found_by_embedding(Some(depth))(kept[k]));
    }
    if g.fragments.contains(f) && is_in_reach(f, depth) {
        law_query_misses_nothing(g, topic, Some(e), depth, limit, f);
    }
}

/// Stale knowledge ranks lower: of two fragments with the same embedding, the one
/// that is more relevant by some billionths is listed, and listed first, wherever the
/// other one is.
pub proof fn law_stale_ranks_lower(
    g: StorageView,
    topic: Seq<char>,
    e: Seq<i32>,
    depth: u32,
    limit: int,
    fresh: FragmentView,
    stale: FragmentView,
    i: int,
)
    requires
        g.fragments.contains(fresh),
        is_in_reach(fresh, depth),
        fresh.embedding == stale.embedding,
        stale.relevance_score + 7 <= fresh.relevance_score,
        0 <= i < query_hits(g, topic, Some(e), depth, limit).len() <= limit,
        query_hits(g, topic, Some(e), depth, limit)[i].fragment == stale,
    ensures
        ({
            let hits = query_hits(g, topic, Some(e), depth, limit);
            exists|j: int| 0 <= j < i && (#[trigger] hits[j]).fragment == fresh
        }),
{
    let hits = query_hits(g, topic, Some(e), depth, limit);
    let s = crate::embedding::similarity(e, fresh.embedding);
    law_query_by_embedding(g, topic, e, depth, limit, fresh);
    law_query_by_embedding(g, topic, e, depth, limit, stale);
    law_query_hits(g, topic, Some(e), depth, limit);
    crate::embedding::law_similarity_range(e, fresh.embedding);
    crate::relevance::law_fresher_scores_more(
        s as i64,
        stale.relevance_score,
        fresh.relevance_score,
    );
    let score = crate::relevance::blended(s, fresh.relevance_score as int);
    assert(hits[i].score < score);
    let j = choose|j: int| 0 <= j < hits.len() && hits[j] == (ScoredView { fragment: fresh, score });
    assert(j < i);
}

/// The closer an embedding is, the higher it ranks: of two equally relevant
/// fragments, the one whose similarity is larger by some billionths is listed first.
pub proof fn law_closer_ranks_higher(
    g: StorageView,
    topic: Seq<char>,
    e: Seq<i32>,
    depth: u32,
    limit: int,
    close: FragmentView,
    far: FragmentView,
    i: int,
)
    requires
        g.fragments.contains(close),
        is_in_reach(close, depth),
        close.relevance_score == far.relevance_score,
        crate::embedding::similarity(e, far.embedding) + 10 <= crate::embedding::similarity(
            e,
            close.embedding,
        ),
        0 <= i < query_hits(g, topic, Some(e), depth, limit).len() <= limit,
        query_hits(g, topic, Some(e), depth, limit)[i].fragment == far,
    ensures
        ({
            let hits = query_hits(g, topic, Some(e), depth, limit);
            exists|j: int| 0 <= j < i && (#[trigger] hits[j]).fragment == close
        }),
{
    let hits = query_hits(g, topic, Some(e), depth, limit);
    let s1 = crate::embedding::similarity(e, far.embedding);
    let s2 = crate::embedding::similarity(e, close.embedding);
    law_query_by_embedding(g, topic, e, depth, limit, close);
    law_query_by_embedding(g, topic, e, depth, limit, far);
    law_query_hits(g, topic, Some(e), depth, limit);
    crate::embedding::law_similarity_range(e, far.embedding);
    crate::embedding::law_similarity_range(e, close.embedding);
    crate::relevance::law_closer_scores_more(s1 as i64, s2 as i64, close.relevance_score);
    let score = crate::relevance::blended(s2, close.relevance_score as int);
    assert(hits[i].score < score);
    let j = choose|j: int| 0 <= j < hits.len() && hits[j] == (ScoredView { fragment: close, score });
    assert(j < i);
}

/// No fragment is listed twice.
pub proof fn law_no_hit_twice(
    g: StorageView,
    topic: Seq<char>,
    embedding: Option<Seq<i32>>,
    depth: u32,
    limit: int,
    i: int,
    j: int,
)
    requires
        crate::storage::unique_fragments(g.fragments),
        0 <= i < j < query_hits(g, topic, embedding, depth, limit).len() <= limit,
    ensures
        query_hits(g, topic, embedding, depth, limit)[i].fragment.id != query_hits(
            g,
            topic,
            embedding,
            depth,
            limit,
        )[j].fragment.id,
{
    let keep = match embedding {
        Some(_) => found_by_embedding(Some(depth)),
        None => found_by_text(topic, Some(depth)),
    };
    let to = match embedding {
        Some(e) => scored_by_embedding(e),
        None => scored_by_text(topic),
    };
    let kept = g.fragments.filter(keep);
    let all = kept.map_values(to);
    let hits = query_hits(g, topic, embedding, depth, limit);
    crate::lists::law_ranking(score_keys(all));
    let order = crate::lists::ranking(score_keys(all));
    let (a, b) = (order[i], order[j]);
    assert(crate::lists::in_order(score_keys(all), a, b));
    assert(hits[i] == all[a] && hits[j] == all[b]);
    crate::storage::lemma_filtered_unique(g.fragments, keep);
    if a < b {
        assert(kept[a].id != kept[b].id);
    } else {
        assert(kept[b].id != kept[a].id);
    }
}

impl LoreDb {
    /// Explores a topic, as of a given time: the trees below the three roots
    /// that match best.
    pub fn explore_at(
        &mut self,
        topic: &str,
        embedding: Option<&Vec<i32>>,
        max_depth: u32,
        now: i64,
    ) -> (r: Vec<Tree>)
        requires
            old(self).wf(),
        ensures
            final(self).wf(),
            ({
                let hits = query_hits(
                    old(self)@,
                    topic@,
                    crate::storage::numbers_view(embedding),
                    0,
                    3,
                );
                &&& final(self)@ == all_recalled(old(self)@, hits, now)
                &&& crate::fragment::forest_view(r@) == trees_found(
                    final(self)@,
                    hits,
                    max_depth as nat,
                )
            }),
    {
        let ghost before = self@;
        let found = self.query_at(topic, embedding, 0, 3, now);
        let ghost hits = crate::fragment::scored_views(found@);
        let ghost after = self@;
        let ghost all = trees_found(after, hits, max_depth as nat);
        proof {
            law_query_hits(before, topic@, crate::storage::numbers_view(embedding), 0, 3);
        }
        let mut out: Vec<Tree> = Vec::new();
        let mut i: usize = 0;
        assert(crate::fragment::forest_view(out@) == all.take(0));
        while i < found.len()
            invariant
                self.wf(),
                self@ == after,
                after == all_recalled(before, hits, now),
                i <= found.len(),
                hits == crate::fragment::scored_views(found@),
                all == trees_found(after, hits, max_depth as nat),
                crate::fragment::forest_view(out@) == all.take(i as int),
                forall|k: int|
                    0 <= k < hits.len() ==> before.fragments.contains(
                        (#[trigger] hits[k]).fragment,
                    ),
            decreases found.len() - i,
        {
            let id: FragmentId = found[i].fragment.id;
            proof {
                assert(hits[i as int] == found@[i as int]@);
                let f = hits[i as int].fragment;
                assert(before.fragments.contains(f));
                let k = choose|k: int| 0 <= k < before.fragments.len() && before.fragments[k] == f;
                assert(before.fragments[k].id == id);
                assert(crate::storage::has_fragment(before.fragments, id));
                lemma_all_recalled_has(before, hits, now, id);
            }
            if let Some(t) = self.subtree(id, max_depth) {
                proof {
                    assert(out@.push(t).drop_last() == out@);
                    assert(all.take(i + 1) == all.take(i as int).push(
                        crate::fragment::tree_view(t),
                    ));
                }
                out.push(t);
            }
            i = i + 1;
        }
        assert(all.take(i as int) == all);
        out
    }

    /// Explores a topic, as [`LoreDb::explore_at`] does, as of now.
    pub fn explore(
        &mut self,
        topic: &str,
        embedding: Option<&Vec<i32>>,
        max_depth: u32,
    ) -> (r: Vec<Tree>)
        requires
            old(self).wf(),
        ensures
            final(self).wf(),
            ({
                let hits = query_hits(
                    old(self)@,
                    topic@,
                    crate::storage::numbers_view(embedding),
                    0,
                    3,
                );
                &&& exists|now: i64|
                    now >= 0 && final(self)@ == #[trigger] all_recalled(old(self)@, hits, now)
                &&& crate::fragment::forest_view(r@) == trees_found(
                    final(self)@,
                    hits,
                    max_depth as nat,
                )
            }),
    {
        let now: i64 = now_unix();
        self.explore_at(topic, embedding, max_depth, now)
    }

    /// The active roots, the most relevant first, up to a number of them if one
    /// is given.
    pub fn list_roots(&self, limit: Option<usize>) -> (r: Vec<Fragment>)
        requires
            self.wf(),
        ensures
            crate::fragment::fragment_views(r@) == match limit {
                Some(n) => crate::lists::first_items(roots_of(self@), n as int),
                None => roots_of(self@),
            },
    {
        let fragments = self.storage.get_fragments_at_depth(0);
        let ghost fs = crate::fragment::fragment_views(fragments@);
        let mut scored: Vec<ScoredFragment> = Vec::new();
        let mut i: usize = 0;
        while i < fragments.len()
            invariant
                i <= fragments.len(),
                fs == crate::fragment::fragment_views(fragments@),
                scored.len() == i,
                forall|k: int|
                    0 <= k < i ==> (#[trigger] scored@[k])@ == (ScoredView {
                        fragment: fs[k],
                        score: fs[k].relevance_score,
                    }),
            decreases fragments.len() - i,
        {
            assert(fs[i as int] == fragments@[i as int]@);
            scored.push(
                ScoredFragment {
                    fragment: fragments[i].clone(),
                    score: fragments[i].relevance_score,
                },
            );
            i = i + 1;
        }
        let count: usize = match limit {
            Some(n) => n,
            None => scored.len(),
        };
        let sorted = take_best(&scored, count);
        let ghost sv = crate::fragment::scored_views(scored@);
        let ghost keys = relevance_keys(fs);
        proof {
            assert(score_keys(sv) == keys);
            crate::lists::law_ranking(keys);
        }
        let mut out: Vec<Fragment> = Vec::new();
        let mut k: usize = 0;
        while k < sorted.len()
            invariant
                k <= sorted.len(),
                out.len() == k,
                forall|j: int|
                    0 <= j < k ==> (#[trigger] out@[j])@ == crate::fragment::scored_views(
                        sorted@,
                    )[j].fragment,
            decreases sorted.len() - k,
        {
            out.push(sorted[k].fragment.clone());
            k = k + 1;
        }
        proof {
            let ranked = crate::lists::ranked(fs, keys);
            let got = crate::fragment::scored_views(sorted@);
            assert(got == best(sv, count as int));
            assert(crate::lists::ranked(sv, keys).len() == keys.len());
            assert(got.len() == sorted.len() && got.len() <= keys.len());
            assert forall|j: int| 0 <= j < out.len() implies crate::fragment::fragment_views(
                out@,
            )[j] == #[trigger] ranked[j] by {
                assert((out@[j])@ == got[j].fragment);
                assert(got[j] == sv[crate::lists::ranking(keys)[j]]);
                assert(ranked[j] == fs[crate::lists::ranking(keys)[j]]);
            }
            assert(crate::fragment::fragment_views(out@) == crate::lists::first_items(
                ranked,
                count as int,
            ));
            assert(ranked == roots_of(self@));
        }
        out
    }

    /// All active roots, the most relevant first.
    pub fn list_topics(&self) -> (r: Vec<Fragment>)
        requires
            self.wf(),
        ensures
            crate::fragment::fragment_views(r@) == roots_of(self@),
    {
        self.list_roots(None)
    }
}

// ---- what a search by text is worth ----

proof fn lemma_words_found(words: Seq<Seq<char>>, content: Seq<char>, summary: Seq<char>)
    ensures
        words_found(words, content, summary) == words.filter(
            |w: Seq<char>|
                crate::text::contains(content, w) || crate::text::contains(summary, w),
        ).len(),
    decreases words.len(),
{
    reveal(Seq::filter);
    if words.len() > 0 {
        lemma_words_found(words.drop_last(), content, summary);
    }
}

/// What a match by text is worth: 0.8 where the topic stands in the content or in the
/// summary as it is, whatever else does; else from 0.3 upwards by the share of its words
/// that stand in one of them, up to 0.7 where all do; and nothing where none does.
pub proof fn law_text_match(topic: Seq<char>, content: Seq<char>, summary: Seq<char>)
    ensures
        ({
            let words = crate::text::words(topic);
            let found = words.filter(
                |w: Seq<char>|
                    crate::text::contains(content, w) || crate::text::contains(summary, w),
            );
            let whole = crate::text::contains(content, topic) || crate::text::contains(
                summary,
                topic,
            );
            &&& whole ==> text_match(topic, content, summary) == Some(800_000_000i64)
            &&& !whole && found.len() == 0 ==> text_match(topic, content, summary) is None
            &&& !whole && found.len() > 0 ==> {
                let score = text_match(topic, content, summary)->0;
                &&& text_match(topic, content, summary) is Some
                &&& 300_000_000 <= score <= 700_000_000
                &&& (score - 300_000_000) * words.len() <= 400_000_000 * found.len()
                &&& 400_000_000 * found.len() < (score - 300_000_000 + 1) * words.len()
            }
        }),
{
    let words = crate::text::words(topic);
    let keep = |w: Seq<char>|
        crate::text::contains(content, w) || crate::text::contains(summary, w);
    let n = words.filter(keep).len();
    let len = words.len();
    lemma_words_found(words, content, summary);
    crate::lists::lemma_filter_members(words, keep);
    if n > 0 {
        let q = 400_000_000 * n / len;
        assert(q * len <= 400_000_000 * n < (q + 1) * len && 0 <= q <= 400_000_000)
            by (nonlinear_arith)
            requires
                0 < n <= len,
                q == 400_000_000 * n / len,
        ;
    }
}

/// A query by text finds the active fragments at the depth asked for that have not faded
/// to 0.05 or below and that the topic matches, upper and lower case alike, and nothing
/// else; each with the blend of its match and its relevance for a score. It leaves nothing
/// out unless it returns as many as were asked for and none of them scores less.
pub proof fn law_query_by_text(
    g: StorageView,
    topic: Seq<char>,
    depth: u32,
    limit: int,
    f: FragmentView,
)
    requires
        limit >= 0,
    ensures
        ({
            let hits = query_hits(g, topic, None, depth, limit);
            let matched = text_match(
                crate::text::lowercase(topic),
                crate::text::lowercase(f.content),
                crate::text::lowercase(f.summary),
            );
            let score = crate::relevance::blended(matched->0 as int, f.relevance_score as int);
            let in_reach = f.superseded_by is None && f.depth == depth && f.relevance_score
                > 50_000_000 && matched is Some;
            &&& forall|i: int|
                0 <= i < hits.len() && (#[trigger] hits[i]).fragment == f ==> hits[i].score == score
                    && g.fragments.contains(f) && in_reach
            &&& g.fragments.contains(f) && in_reach ==> hits.contains(
                ScoredView { fragment: f, score },
            ) || (hits.len() == limit && forall|j: int|
                0 <= j < hits.len() ==> (#[trigger] hits[j]).score >= score)
        }),
{
    let hits = query_hits(g, topic, None, depth, limit);
    let all = text_hits(g, topic, Some(depth));
    let keep = found_by_text(topic, Some(depth));
    law_query_hits(g, topic, None, depth, limit);
    assert forall|i: int| 0 <= i < hits.len() && (#[trigger] hits[i]).fragment == f implies hits[i]
        == scored_by_text(topic)(f) && keep(f) by {
        lemma_best_member(all, limit, i);
        let k = choose|k: int| 0 <= k < all.len() && all[k] == hits[i];
        let kept = g.fragments.filter(keep);
        crate::lists::lemma_filter_members(g.fragments, keep);
        assert(all[k] == scored_by_text(topic)(kept[k]));
        assert(keep(kept[k]));
    }
    if g.fragments.contains(f) && keep(f) {
        law_query_misses_nothing(g, topic, None, depth, limit, f);
    }
}

/// A semantic search looks at every depth: what it finds is active, has an embedding and
/// has not faded to 0.05 or below, with the blend of similarity and relevance for a score;
/// it leaves nothing of that out unless it returns as many as were asked for and none of
/// them scores less, and no better one comes after a worse one.
pub proof fn law_semantic_search(g: StorageView, e: Seq<i32>, limit: int, f: FragmentView)
    requires
        limit >= 0,
    ensures
        ({
            let hits = best(embedding_hits(g, e, None), limit);
            let score = crate::relevance::blended(
                crate::embedding::similarity(e, f.embedding),
                f.relevance_score as int,
            );
            let in_reach = f.superseded_by is None && f.embedding.len() > 0 && f.relevance_score
                > 50_000_000;
            &&& hits.len() <= limit
            &&& forall|i: int|
                0 <= i < hits.len() && (#[trigger] hits[i]).fragment == f ==> hits[i].score == score
                    && g.fragments.contains(f) && in_reach
            &&& g.fragments.contains(f) && in_reach ==> hits.contains(
                ScoredView { fragment: f, score },
            ) || (hits.len() == limit && forall|j: int|
                0 <= j < hits.len() ==> (#[trigger] hits[j]).score >= score)
            &&& forall|i: int, j: int|
                0 <= i < j < hits.len() ==> (#[trigger] hits[i]).score >= (
                #[trigger] hits[j]).score
        }),
{
    let all = embedding_hits(g, e, None);
    let hits = best(all, limit);
    let keep = found_by_embedding(None);
    let kept = g.fragments.filter(keep);
    law_best(all, limit);
    crate::lists::lemma_filter_members(g.fragments, keep);
    assert forall|i: int| 0 <= i < hits.len() && (#[trigger] hits[i]).fragment == f implies hits[i]
        == scored_by_embedding(e)(f) && keep(f) && g.fragments.contains(f) by {
        let k = choose|k: int| 0 <= k < all.len() && all[k] == hits[i];
        assert(all[k] == scored_by_embedding(e)(kept[k]));
        assert(keep(kept[k]) && g.fragments.contains(kept[k]));
    }
    if g.fragments.contains(f) && keep(f) {
        let i = choose|i: int| 0 <= i < g.fragments.len() && g.fragments[i] == f;
        assert(keep(g.fragments[i]));
        let k = choose|k: int| 0 <= k < kept.len() && kept[k] == f;
        assert(all[k] == scored_by_embedding(e)(f));
    }
}

// ---- what recalling does ----

/// Recalled without any edges, a fragment alone is reinforced: one access more, a decay
/// that starts anew, and the relevance that the forgetting curve gives at once.
pub proof fn law_recall_without_edges(g: StorageView, now: i64, i: int, k: int)
    requires
        crate::storage::unique_fragments(g.fragments),
        g.edges.len() == 0,
        0 <= i < g.fragments.len(),
        0 <= k < g.fragments.len(),
        g.fragments[i].access_count < u32::MAX,
    ensures
        ({
            let f = g.fragments[i];
            let after = recalled(g, f.id, now).fragments;
            &&& k != i ==> after[k] == g.fragments[k]
            &&& after[i] == (FragmentView {
                access_count: (f.access_count + 1) as u32,
                last_accessed: now,
                last_reinforced: now,
                relevance_score: crate::relevance::relevance(
                    f.importance as int,
                    (f.access_count + 1) as nat,
                    f.decay_rate as int,
                    now as int,
                    now as int,
                ) as i64,
                ..f
            })
        }),
{
    crate::storage::lemma_fragment_at(g.fragments, i);
    crate::lists::lemma_filter_empty(g.edges, crate::storage::touches(g.fragments[i].id));
    if i < k {
        assert(g.fragments[i].id != g.fragments[k].id);
    } else if k < i {
        assert(g.fragments[k].id != g.fragments[i].id);
    }
}

/// Each edge primes the other fragment that it touches, whichever way it leads and of
/// whatever kind it is: a tenth of its weight is added to the relevance of that one, up to
/// one, if it is active. An edge that does not touch the recalled fragment does nothing.
pub proof fn law_an_edge_primes(g: StorageView, e: EdgeView, id: FragmentId, now: i64, k: int)
    requires
        crate::storage::unique_fragments(g.fragments),
        crate::storage::has_fragment(g.fragments, id),
        0 <= k < g.fragments.len(),
        g.fragments[k].id != id,
        0 <= e.weight <= 1_000_000_000,
        0 <= recalled(g, id, now).fragments[k].relevance_score <= 1_000_000_000,
    ensures
        ({
            let f = g.fragments[k];
            let before = recalled(g, id, now).fragments[k];
            let after = recalled(
                StorageView { edges: g.edges.push(e), ..g },
                id,
                now,
            ).fragments[k];
            let joined = (e.source == id && e.target == f.id) || (e.target == id && e.source
                == f.id);
            let raised = before.relevance_score + e.weight / 10;
            &&& !joined || f.superseded_by is Some ==> after == before
            &&& joined && f.superseded_by is None ==> after == (FragmentView {
                relevance_score: if raised < 1_000_000_000 {
                    raised as i64
                } else {
                    1_000_000_000
                },
                last_accessed: now,
                ..before
            })
        }),
{
    let more = StorageView { edges: g.edges.push(e), ..g };
    let keep = crate::storage::touches(id);
    let some = g.edges.filter(keep);
    crate::lists::lemma_filter_push(g.edges, keep, e);
    let f0 = crate::storage::fragment_of(g.fragments, id)->0;
    let start = crate::storage::updated(
        g.fragments,
        id,
        crate::storage::reinforced(now, recalled_relevance(f0, now)),
    );
    assert(start[k] == g.fragments[k]);
    lemma_spread_keeps(start, some, id, now, k);
    if keep(e) {
        assert(some.push(e).drop_last() == some);
        assert(spread_boost(e.weight) == e.weight / 10) by {
            assert(100_000_000 * e.weight / 1_000_000_000 == e.weight / 10);
        }
    }
}

proof fn lemma_spread_keeps(
    fs: Seq<FragmentView>,
    edges: Seq<EdgeView>,
    id: FragmentId,
    now: i64,
    k: int,
)
    requires
        0 <= k < fs.len(),
    ensures
        spread(fs, edges, id, now).len() == fs.len(),
        ({
            let after = spread(fs, edges, id, now)[k];
            after == (FragmentView {
                relevance_score: after.relevance_score,
                last_accessed: after.last_accessed,
                ..fs[k]
            })
        }),
    decreases edges.len(),
{
    if edges.len() > 0 {
        lemma_spread_keeps(fs, edges.drop_last(), id, now, k);
    }
}

/// How a recall changes a fragment besides its relevance and the time of its last access.
proof fn lemma_recall_counts(g: StorageView, id: FragmentId, now: i64, k: int)
    requires
        crate::storage::unique_fragments(g.fragments),
        0 <= k < g.fragments.len(),
    ensures
        ({
            let f = g.fragments[k];
            let after = recalled(g, id, now).fragments[k];
            &&& recalled(g, id, now).fragments.len() == g.fragments.len()
            &&& crate::storage::unique_fragments(recalled(g, id, now).fragments)
            &&& after == (FragmentView {
                relevance_score: after.relevance_score,
                last_accessed: after.last_accessed,
                access_count: if f.id == id && f.access_count < u32::MAX {
                    (f.access_count + 1) as u32
                } else {
                    f.access_count
                },
                last_reinforced: if f.id == id {
                    now
                } else {
                    f.last_reinforced
                },
                ..f
            })
        }),
{
    let us = recalled(g, id, now).fragments;
    if crate::storage::has_fragment(g.fragments, id) {
        let f0 = crate::storage::fragment_of(g.fragments, id)->0;
        let start = crate::storage::updated(
            g.fragments,
            id,
            crate::storage::reinforced(now, recalled_relevance(f0, now)),
        );
        let edges = g.edges.filter(crate::storage::touches(id));
        lemma_spread_keeps(start, edges, id, now, k);
        assert forall|i: int, j: int| 0 <= i < j < us.len() implies (#[trigger] us[i]).id != (
        #[trigger] us[j]).id by {
            lemma_spread_keeps(start, edges, id, now, i);
            lemma_spread_keeps(start, edges, id, now, j);
            assert(g.fragments[i].id != g.fragments[j].id);
        }
    } else {
        assert(g.fragments[k].id != id);
    }
}

/// What is returned is reinforced, and nothing else is: each fragment counts as many
/// accesses more as it is among the hits, and the decay of those among them starts anew.
pub proof fn law_hits_are_reinforced(g: StorageView, hits: Seq<ScoredView>, now: i64, k: int)
    requires
        crate::storage::unique_fragments(g.fragments),
        0 <= k < g.fragments.len(),
    ensures
        ({
            let f = g.fragments[k];
            let after = all_recalled(g, hits, now).fragments[k];
            let n = hits.filter(|h: ScoredView| h.fragment.id == f.id).len();
            &&& all_recalled(g, hits, now).fragments.len() == g.fragments.len()
            &&& all_recalled(g, hits, now).edges == g.edges
            &&& crate::storage::unique_fragments(all_recalled(g, hits, now).fragments)
            &&& after == (FragmentView {
                relevance_score: after.relevance_score,
                last_accessed: after.last_accessed,
                access_count: if f.access_count + n <= u32::MAX {
                    (f.access_count + n) as u32
                } else {
                    u32::MAX
                },
                last_reinforced: if n > 0 {
                    now
                } else {
                    f.last_reinforced
                },
                ..f
            })
        }),
    decreases hits.len(),
{
    let f = g.fragments[k];
    let keep = |h: ScoredView| h.fragment.id == f.id;
    reveal(Seq::filter);
    if hits.len() == 0 {
        assert(hits.filter(keep).len() == 0);
    } else {
        let front = hits.drop_last();
        law_hits_are_reinforced(g, front, now, k);
        let middle = all_recalled(g, front, now);
        lemma_recall_counts(middle, hits.last().fragment.id, now, k);
        law_recall_keeps_fragments(middle, hits.last().fragment.id, now, f.id);
        assert(hits.filter(keep).len() == front.filter(keep).len() + if keep(hits.last()) {
            1nat
        } else {
            0
        });
    }
}

// ---- trees ----

/// A tree has its fragment on top and, one level less deep, the trees of all its children
/// below it, in their order; with no level left it has no children.
pub proof fn law_trees_grow_by_levels(g: StorageView, f: FragmentView, depth: nat)
    ensures
        tree_of(g, f, 0) == (TreeView { fragment: f, children: Seq::empty() }),
        ({
            let t = tree_of(g, f, depth + 1);
            let below = crate::storage::children_of(g, f.id);
            &&& t.fragment == f
            &&& t.children.len() == below.len()
            &&& forall|i: int|
                0 <= i < below.len() ==> #[trigger] t.children[i] == tree_of(g, below[i], depth)
        }),
{
}

/// Exploring gives one tree for each hit, in their order, with the fragment as it is by
/// then on top.
pub proof fn law_trees_of_hits(
    g: StorageView,
    hits: Seq<ScoredView>,
    depth: nat,
    i: int,
    k: int,
)
    requires
        crate::storage::unique_fragments(g.fragments),
        0 <= i < hits.len(),
        0 <= k < g.fragments.len(),
        g.fragments[k].id == hits[i].fragment.id,
    ensures
        trees_found(g, hits, depth).len() == hits.len(),
        trees_found(g, hits, depth)[i] == tree_of(g, g.fragments[k], depth),
{
    crate::storage::lemma_fragment_at(g.fragments, k);
}

} // verus!
