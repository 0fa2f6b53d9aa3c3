//! Changes to the knowledge graph that create edges.
//!
//! An edge gets a random identifier and the time of its creation, together its
//! [`Stamp`]. Each change comes in two forms: one that is given the stamp, and
//! one that draws it.

use vstd::prelude::*;

use crate::edge::{Edge, EdgeId, EdgeKind};
#[allow(unused_imports)]
use crate::edge::EdgeView;
use crate::embedding::cosine_similarity;
use crate::fixed::ONE;
use crate::fragment::{now_unix, Fragment, FragmentId};
#[allow(unused_imports)]
use crate::fragment::FragmentView;
use crate::query::LoreDb;
use crate::storage::StorageError;
#[allow(unused_imports)]
use crate::storage::StorageView;

verus! {

/// What a new edge gets from chance and the clock.
#[derive(Debug, Clone, Copy, PartialEq, Eq, Structural)]
pub struct Stamp {
    pub id: EdgeId,
    pub now: i64,
}

/// A stamp as it is drawn: a random UUID, and a time since the epoch.
pub open spec fn is_drawn(s: Stamp) -> bool {
    crate::fragment::is_random_uuid(s.id.0) && s.now >= 0
}

impl Stamp {
    /// Draws a stamp.
    pub fn new() -> (r: Self)
        ensures
            is_drawn(r),
    {
        Stamp { id: EdgeId::new(), now: now_unix() }
    }
}

/// A new edge with its stamp.
pub open spec fn stamped_edge(
    source: FragmentId,
    target: FragmentId,
    kind: EdgeKind,
    weight: i64,
    content: Option<Seq<char>>,
    stamp: Stamp,
) -> EdgeView {
    EdgeView { id: stamp.id, source, target, kind, weight, content, created_at: stamp.now }
}

/// A graph, and what came of a change to it.
pub struct Outcome<T> {
    pub graph: StorageView,
    pub result: Result<T, StorageError>,
}

/// The outcome of adding an edge.
pub open spec fn linking(g: StorageView, e: EdgeView) -> Outcome<()> {
    match crate::storage::insert_edge_result(g, e) {
        Ok(_) => Outcome { graph: StorageView { edges: g.edges.push(e), ..g }, result: Ok(()) },
        Err(x) => Outcome { graph: g, result: Err(x) },
    }
}

/// The outcome of adding a fragment, and an edge to it from a parent if there
/// is one. A fragment whose edge is refused stays.
pub open spec fn inserting(
    g: StorageView,
    f: FragmentView,
    parent: Option<FragmentId>,
    stamp: Stamp,
) -> Outcome<FragmentId> {
    match crate::storage::insert_fragment_result(g, f) {
        Ok(_) => {
            let g1 = StorageView { fragments: g.fragments.push(f), ..g };
            match parent {
                Some(p) => {
                    let linked = linking(
                        g1,
                        stamped_edge(p, f.id, EdgeKind::Hierarchical, ONE, None, stamp),
                    );
                    Outcome {
                        graph: linked.graph,
                        result: match linked.result {
                            Ok(_) => Ok(f.id),
                            Err(x) => Err(x),
                        },
                    }
                },
                None => Outcome { graph: g1, result: Ok(f.id) },
            }
        },
        Err(x) => Outcome { graph: g, result: Err(x) },
    }
}

/// The outcome of marking a fragment as superseded, and adding an edge that
/// says so. The mark stays where the edge is refused.
pub open spec fn superseding(
    g: StorageView,
    old_id: FragmentId,
    new_id: FragmentId,
    stamp: Stamp,
) -> Outcome<()> {
    match crate::storage::supersede_result(g, old_id, new_id) {
        Ok(_) => linking(
            StorageView {
                fragments: crate::storage::updated(
                    g.fragments,
                    old_id,
                    crate::storage::superseded(new_id),
                ),
                ..g
            },
            stamped_edge(new_id, old_id, EdgeKind::Supersedes, ONE, None, stamp),
        ),
        Err(x) => Outcome { graph: g, result: Err(x) },
    }
}

impl LoreDb {
    /// Adds an edge with a given stamp.
    pub fn link_stamped(
        &mut self,
        source: FragmentId,
        target: FragmentId,
        kind: EdgeKind,
        weight: i64,
        content: Option<String>,
        stamp: Stamp,
    ) -> (r: Result<(), StorageError>)
        requires
            old(self).wf(),
        ensures
            final(self).wf(),
            ({
                let o = linking(
                    old(self)@,
                    stamped_edge(
                        source,
                        target,
                        kind,
                        weight,
                        crate::fragment::text_view(content),
                        stamp,
                    ),
                );
                final(self)@ == o.graph && r == o.result
            }),
    {
        let edge = Edge {
            id: stamp.id,
            source,
            target,
            kind,
            weight,
            content,
            created_at: stamp.now,
        };
        self.storage_mut().insert_edge(&edge)
    }

    /// Adds an edge that says in words how two fragments relate.
    pub fn link_with_content(
        &mut self,
        source: FragmentId,
        target: FragmentId,
        kind: EdgeKind,
        weight: i64,
        content: Option<String>,
    ) -> (r: Result<(), StorageError>)
        requires
            old(self).wf(),
        ensures
            final(self).wf(),
            exists|stamp: Stamp| #[trigger]
                is_drawn(stamp) && ({
                    let o = linking(
                        old(self)@,
                        stamped_edge(
                            source,
                            target,
                            kind,
                            weight,
                            crate::fragment::text_view(content),
                            stamp,
                        ),
                    );
                    final(self)@ == o.graph && r == o.result
                }),
    {
        let stamp = Stamp::new();
        self.link_stamped(source, target, kind, weight, content, stamp)
    }

    /// Adds an edge.
    pub fn link(
        &mut self,
        source: FragmentId,
        target: FragmentId,
        kind: EdgeKind,
        weight: i64,
    ) -> (r: Result<(), StorageError>)
        requires
            old(self).wf(),
        ensures
            final(self).wf(),
            exists|stamp: Stamp| #[trigger]
                is_drawn(stamp) && ({
                    let o = linking(
                        old(self)@,
                        stamped_edge(source, target, kind, weight, None, stamp),
                    );
                    final(self)@ == o.graph && r == o.result
                }),
    {
        self.link_with_content(source, target, kind, weight, None)
    }

    /// Adds a fragment, and an edge with a given stamp from its parent if it has
    /// one.
    pub fn insert_stamped(
        &mut self,
        fragment: Fragment,
        parent: Option<FragmentId>,
        stamp: Stamp,
    ) -> (r: Result<FragmentId, StorageError>)
        requires
            old(self).wf(),
        ensures
            final(self).wf(),
            ({
                let o = inserting(old(self)@, fragment@, parent, stamp);
                final(self)@ == o.graph && r == o.result
            }),
    {
        let id: FragmentId = fragment.id;
        match self.storage_mut().insert_fragment(&fragment) {
            Ok(_) => {},
            Err(e) => {
                return Err(e);
            },
        }
        if let Some(p) = parent {
            match self.link_stamped(p, id, EdgeKind::Hierarchical, ONE, None, stamp) {
                Ok(_) => {},
                Err(e) => {
                    return Err(e);
                },
            }
        }
        Ok(id)
    }

    /// Adds a fragment, and an edge from its parent if it has one.
    pub fn insert(&mut self, fragment: Fragment, parent: Option<FragmentId>) -> (r: Result<
        FragmentId,
        StorageError,
    >)
        requires
            old(self).wf(),
        ensures
            final(self).wf(),
            exists|stamp: Stamp| #[trigger]
                is_drawn(stamp) && ({
                    let o = inserting(old(self)@, fragment@, parent, stamp);
                    final(self)@ == o.graph && r == o.result
                }),
    {
        let stamp = Stamp::new();
        self.insert_stamped(fragment, parent, stamp)
    }

    /// Gives a fragment new content and a new summary, and a new embedding if
    /// there is one.
    pub fn update(
        &mut self,
        id: FragmentId,
        new_content: &str,
        new_summary: &str,
        embedding: Option<&Vec<i32>>,
    )
        requires
            old(self).wf(),
        ensures
            final(self).wf(),
            exists|now: i64|
                now >= 0 && final(self)@ == (StorageView {
                    fragments: #[trigger] crate::storage::updated(
                        old(self)@.fragments,
                        id,
                        crate::storage::rewritten(
                            new_content@,
                            new_summary@,
                            crate::storage::numbers_view(embedding),
                            now,
                        ),
                    ),
                    ..old(self)@
                }),
    {
        self.storage_mut().update_fragment_content(id, new_content, new_summary, embedding)
    }

    /// Marks a fragment as superseded by another, and adds an edge with a given
    /// stamp that says so.
    pub fn supersede_stamped(&mut self, old_id: FragmentId, new_id: FragmentId, stamp: Stamp) -> (r:
        Result<(), StorageError>)
        requires
            old(self).wf(),
        ensures
            final(self).wf(),
            ({
                let o = superseding(old(self)@, old_id, new_id, stamp);
                final(self)@ == o.graph && r == o.result
            }),
    {
        match self.storage_mut().supersede_fragment(old_id, new_id) {
            Ok(_) => self.link_stamped(new_id, old_id, EdgeKind::Supersedes, ONE, None, stamp),
            Err(e) => Err(e),
        }
    }

    /// Marks a fragment as superseded by another, and adds an edge that says so.
    pub fn supersede(&mut self, old_id: FragmentId, new_id: FragmentId) -> (r: Result<
        (),
        StorageError,
    >)
        requires
            old(self).wf(),
        ensures
            final(self).wf(),
            exists|stamp: Stamp| #[trigger]
                is_drawn(stamp) && ({
                    let o = superseding(old(self)@, old_id, new_id, stamp);
                    final(self)@ == o.graph && r == o.result
                }),
    {
        let stamp = Stamp::new();
        self.supersede_stamped(old_id, new_id, stamp)
    }

    /// Removes a fragment and its edges.
    pub fn prune(&mut self, id: FragmentId) -> (r: Result<(), StorageError>)
        requires
            old(self).wf(),
        ensures
            final(self).wf(),
            r == Ok::<(), StorageError>(()),
            final(self)@ == crate::storage::without(old(self)@, id),
    {
        self.storage_mut().delete_fragment(id)
    }
}

// ---- the nearest root ----

/// The place of the fragment that is most similar to an embedding; the first of
/// them where there are several.
pub open spec fn nearest(fs: Seq<FragmentView>, embedding: Seq<i32>) -> int
    decreases fs.len(),
{
    if fs.len() <= 1 {
        0
    } else {
        let k = nearest(fs.drop_last(), embedding);
        if crate::embedding::similarity(embedding, fs.last().embedding)
            > crate::embedding::similarity(embedding, fs[k].embedding) {
            fs.len() - 1
        } else {
            k
        }
    }
}

/// The active root that is most similar to an embedding, with the similarity.
pub open spec fn nearest_root(g: StorageView, embedding: Seq<i32>) -> Option<(FragmentId, int)> {
    let fs = g.fragments.filter(crate::storage::embedded(Some(0)));
    if fs.len() == 0 {
        None
    } else {
        let f = fs[nearest(fs, embedding)];
        Some((f.id, crate::embedding::similarity(embedding, f.embedding)))
    }
}

/// No fragment is more similar than the nearest one.
pub proof fn law_nearest(fs: Seq<FragmentView>, embedding: Seq<i32>, i: int)
    requires
        0 <= i < fs.len(),
    ensures
        0 <= nearest(fs, embedding) < fs.len(),
        crate::embedding::similarity(embedding, fs[i].embedding) <= crate::embedding::similarity(
            embedding,
            fs[nearest(fs, embedding)].embedding,
        ),
    decreases fs.len(),
{
    if fs.len() > 1 {
        let front = fs.drop_last();
        law_nearest(front, embedding, 0);
        if i < front.len() {
            law_nearest(front, embedding, i);
            assert(front[i] == fs[i]);
        }
        assert(front[nearest(front, embedding)] == fs[nearest(front, embedding)]);
    }
}

/// What `max_root_similarity` tells of a graph.
pub open spec fn root_similarity(g: StorageView, embedding: Option<Seq<i32>>) -> Option<int> {
    match embedding {
        Some(e) => match nearest_root(g, e) {
            Some(n) => Some(n.1),
            None => Some(0),
        },
        None => None,
    }
}

impl LoreDb {
    /// The active root that is most similar to an embedding, with the
    /// similarity.
    pub fn find_best_root_by_embedding(&self, embedding: &Vec<i32>) -> (r: Option<
        (FragmentId, i64),
    >)
        requires
            self.wf(),
        ensures
            match r {
                Some(n) => nearest_root(self@, embedding@) == Some((n.0, n.1 as int)),
                None => nearest_root(self@, embedding@) is None,
            },
    {
        let roots = self.storage().get_fragments_with_embeddings(Some(0));
        let ghost fs = crate::fragment::fragment_views(roots@);
        if roots.len() == 0 {
            return None;
        }
        assert(fs[0] == roots@[0]@);
        let mut at: usize = 0;
        let mut top: i64 = cosine_similarity(embedding, &roots[0].embedding);
        let mut i: usize = 1;
        while i < roots.len()
            invariant
                1 <= i <= roots.len(),
                at < i,
                fs == crate::fragment::fragment_views(roots@),
                at == nearest(fs.take(i as int), embedding@),
                top == crate::embedding::similarity(embedding@, fs[at as int].embedding),
            decreases roots.len() - i,
        {
            proof {
                assert(fs.take(i + 1).drop_last() == fs.take(i as int));
                assert(fs.take(i + 1).last() == roots@[i as int]@);
                assert(fs[i as int] == roots@[i as int]@);
            }
            let s: i64 = cosine_similarity(embedding, &roots[i].embedding);
            if s > top {
                at = i;
                top = s;
            }
            i = i + 1;
        }
        assert(fs.take(i as int) == fs);
        Some((roots[at].id, top))
    }

    /// How similar the nearest root is: nothing where the text has no embedding,
    /// zero where there is no root to compare it with.
    pub fn max_root_similarity(&self, embedding: Option<&Vec<i32>>) -> (r: Option<i64>)
        requires
            self.wf(),
        ensures
            match r {
                Some(s) => root_similarity(self@, crate::storage::numbers_view(embedding)) == Some(
                    s as int,
                ),
                None => root_similarity(self@, crate::storage::numbers_view(embedding)) is None,
            },
    {
        match embedding {
            Some(e) => match self.find_best_root_by_embedding(e) {
                Some(n) => Some(n.1),
                None => Some(0),
            },
            None => None,
        }
    }
}

/// The active root that is most similar to an embedding, if it is more similar
/// than a threshold.
pub open spec fn close_root(g: StorageView, embedding: Option<Seq<i32>>, threshold: i64) -> Option<
    FragmentId,
> {
    match embedding {
        Some(e) => match nearest_root(g, e) {
            Some(n) => if n.1 > threshold {
                Some(n.0)
            } else {
                None
            },
            None => None,
        },
        None => None,
    }
}

impl LoreDb {
    /// The root below which new knowledge belongs.
    pub fn find_best_parent(&self, embedding: Option<&Vec<i32>>, threshold: i64) -> (r: Option<
        FragmentId,
    >)
        requires
            self.wf(),
        ensures
            r == close_root(self@, crate::storage::numbers_view(embedding), threshold),
    {
        match embedding {
            Some(e) => match self.find_best_root_by_embedding(e) {
                Some(n) => if n.1 > threshold {
                    Some(n.0)
                } else {
                    None
                },
                None => None,
            },
            None => None,
        }
    }
}

// ---- laws ----

/// Reading back: a fragment that was added is found under its identifier, and
/// all others are found as before.
pub proof fn law_insert_then_get(
    g: StorageView,
    f: FragmentView,
    parent: Option<FragmentId>,
    stamp: Stamp,
    x: FragmentId,
)
    requires
        crate::storage::is_sound(g),
        crate::storage::insert_fragment_result(g, f) is Ok,
    ensures
        crate::storage::fragment_of(inserting(g, f, parent, stamp).graph.fragments, x) == if x
            == f.id {
            Some(f)
        } else {
            crate::storage::fragment_of(g.fragments, x)
        },
{
    let fs = g.fragments;
    let ps = fs.push(f);
    assert(inserting(g, f, parent, stamp).graph.fragments == ps);
    assert(crate::storage::unique_fragments(ps)) by {
        assert forall|i: int, j: int| 0 <= i < j < ps.len() implies (#[trigger] ps[i]).id != (
        #[trigger] ps[j]).id by {
            if j == fs.len() {
                assert(fs[i].id != f.id);
            } else {
                assert(fs[i].id != fs[j].id);
            }
        }
    }
    assert(ps[fs.len() as int] == f);
    crate::storage::lemma_fragment_at(ps, fs.len() as int);
    if x != f.id {
        if crate::storage::has_fragment(fs, x) {
            let k = choose|k: int| 0 <= k < fs.len() && (#[trigger] fs[k]).id == x;
            assert(ps[k] == fs[k]);
            crate::storage::lemma_fragment_at(ps, k);
            crate::storage::lemma_fragment_at(fs, k);
        } else if crate::storage::has_fragment(ps, x) {
            let k = choose|k: int| 0 <= k < ps.len() && (#[trigger] ps[k]).id == x;
            assert(fs[k].id == x);
        }
    }
}

/// A fragment that is superseded is found under its identifier with its
/// successor, and is no longer among the active ones.
pub proof fn law_superseded_is_inactive(
    g: StorageView,
    old_id: FragmentId,
    new_id: FragmentId,
    stamp: Stamp,
)
    requires
        crate::storage::is_sound(g),
        crate::storage::has_fragment(g.fragments, old_id),
        crate::storage::has_fragment(g.fragments, new_id),
    ensures
        ({
            let after = superseding(g, old_id, new_id, stamp).graph.fragments;
            &&& crate::storage::fragment_of(after, old_id) matches Some(f) && f.superseded_by
                == Some(new_id)
            &&& !crate::storage::has_active(after, old_id)
        }),
{
    let fs = g.fragments;
    let change = crate::storage::superseded(new_id);
    let us = crate::storage::updated(fs, old_id, change);
    assert(superseding(g, old_id, new_id, stamp).graph.fragments == us);
    let k = choose|k: int| 0 <= k < fs.len() && (#[trigger] fs[k]).id == old_id;
    assert(us[k] == change(fs[k]));
    assert(crate::storage::unique_fragments(us)) by {
        assert forall|i: int, j: int| 0 <= i < j < us.len() implies (#[trigger] us[i]).id != (
        #[trigger] us[j]).id by {
            assert(fs[i].id != fs[j].id);
        }
    }
    crate::storage::lemma_fragment_at(us, k);
}

/// A fragment that was removed is no longer found, no edge touches it, and no
/// fragment names it as its successor. All other fragments are still there, and
/// so are all edges that do not touch it.
pub proof fn law_pruned_is_gone(g: StorageView, id: FragmentId)
    requires
        crate::storage::is_sound(g),
    ensures
        ({
            let after = crate::storage::without(g, id);
            &&& !crate::storage::has_fragment(after.fragments, id)
            &&& forall|i: int|
                0 <= i < after.fragments.len() ==> (
                #[trigger] after.fragments[i]).superseded_by != Some(id)
            &&& forall|i: int|
                0 <= i < after.edges.len() ==> (#[trigger] after.edges[i]).source != id
                    && after.edges[i].target != id
            &&& forall|i: int|
                0 <= i < g.fragments.len() && (#[trigger] g.fragments[i]).id != id
                    ==> after.fragments.contains(
                    crate::storage::released(id, crate::storage::heir(g.fragments, id))(
                        g.fragments[i],
                    ),
                )
            &&& forall|i: int|
                0 <= i < g.edges.len() && (#[trigger] g.edges[i]).source != id
                    && g.edges[i].target != id ==> after.edges.contains(g.edges[i])
        }),
{
    let keep = crate::storage::other_than(id);
    let next = crate::storage::heir(g.fragments, id);
    let to = crate::storage::released(id, next);
    let kept = g.fragments.filter(keep);
    let left = kept.map_values(to);
    crate::lists::lemma_filter_members(g.fragments, keep);
    crate::lists::lemma_filter_members(g.edges, crate::storage::apart_from(id));
    if crate::storage::has_fragment(left, id) {
        let k = choose|k: int| 0 <= k < left.len() && (#[trigger] left[k]).id == id;
        assert(keep(kept[k]));
    }
    assert forall|i: int| 0 <= i < g.fragments.len() && (#[trigger] g.fragments[i]).id
        != id implies left.contains(to(g.fragments[i])) by {
        assert(keep(g.fragments[i]));
        let k = choose|k: int| 0 <= k < kept.len() && kept[k] == g.fragments[i];
        assert(left[k] == to(g.fragments[i]));
    }
    assert forall|i: int| 0 <= i < g.edges.len() && (#[trigger] g.edges[i]).source != id
        && g.edges[i].target != id implies g.edges.filter(
        crate::storage::apart_from(id),
    ).contains(g.edges[i]) by {
        assert(crate::storage::apart_from(id)(g.edges[i]));
    }
}

/// An edge that was added is found at both its ends.
pub proof fn law_linked_is_found(g: StorageView, e: EdgeView)
    requires
        linking(g, e).result is Ok,
    ensures
        linking(g, e).graph.edges.filter(crate::storage::touches(e.source)).contains(e),
        linking(g, e).graph.edges.filter(crate::storage::touches(e.target)).contains(e),
{
    let es = linking(g, e).graph.edges;
    assert(es[g.edges.len() as int] == e);
    crate::lists::lemma_filter_members(es, crate::storage::touches(e.source));
    crate::lists::lemma_filter_members(es, crate::storage::touches(e.target));
    assert(crate::storage::touches(e.source)(es[g.edges.len() as int]));
    assert(crate::storage::touches(e.target)(es[g.edges.len() as int]));
}

/// The root that new knowledge belongs to: an active root with an embedding that is more
/// similar than the threshold, and than which none is more similar; there is one exactly
/// where some active root is more similar than the threshold.
pub proof fn law_close_root(g: StorageView, e: Seq<i32>, threshold: i64)
    ensures
        close_root(g, None, threshold) is None,
        match close_root(g, Some(e), threshold) {
            Some(id) => exists|i: int|
                {
                    let f = #[trigger] g.fragments[i];
                    &&& 0 <= i < g.fragments.len()
                    &&& f.id == id && is_candidate_root(f)
                    &&& crate::embedding::similarity(e, f.embedding) > threshold
                    &&& forall|j: int|
                        0 <= j < g.fragments.len() && is_candidate_root(#[trigger] g.fragments[j])
                            ==> crate::embedding::similarity(e, g.fragments[j].embedding)
                            <= crate::embedding::similarity(e, f.embedding)
                },
            None => forall|j: int|
                0 <= j < g.fragments.len() && is_candidate_root(#[trigger] g.fragments[j])
                    ==> crate::embedding::similarity(e, g.fragments[j].embedding) <= threshold,
        },
{
    let keep = crate::storage::embedded(Some(0));
    let fs = g.fragments.filter(keep);
    crate::lists::lemma_filter_members(g.fragments, keep);
    if fs.len() > 0 {
        law_nearest(fs, e, 0);
        let n = nearest(fs, e);
        assert(keep(fs[n]) && g.fragments.contains(fs[n]));
        let i = choose|i: int| 0 <= i < g.fragments.len() && g.fragments[i] == fs[n];
        assert forall|j: int|
            0 <= j < g.fragments.len() && is_candidate_root(
                #[trigger] g.fragments[j],
            ) implies crate::embedding::similarity(e, g.fragments[j].embedding)
            <= crate::embedding::similarity(e, fs[n].embedding) by {
            assert(keep(g.fragments[j]));
            let m = choose|m: int| 0 <= m < fs.len() && fs[m] == g.fragments[j];
            law_nearest(fs, e, m);
        }
        assert(g.fragments[i] == fs[n]);
    } else {
        assert forall|j: int|
            0 <= j < g.fragments.len() && is_candidate_root(
                #[trigger] g.fragments[j],
            ) implies false by {
            assert(keep(g.fragments[j]));
            assert(fs.contains(g.fragments[j]));
        }
    }
}

/// An active root with an embedding.
pub open spec fn is_candidate_root(f: FragmentView) -> bool {
    f.depth == 0 && f.superseded_by is None && f.embedding.len() > 0
}

/// How similar the nearest root is: what none of the active roots exceeds and one of them
/// reaches, and zero where there is none.
pub proof fn law_root_similarity(g: StorageView, e: Seq<i32>)
    ensures
        root_similarity(g, None) is None,
        root_similarity(g, Some(e)) is Some,
        forall|j: int|
            0 <= j < g.fragments.len() && is_candidate_root(#[trigger] g.fragments[j])
                ==> crate::embedding::similarity(e, g.fragments[j].embedding) <= root_similarity(
                g,
                Some(e),
            )->0,
        root_similarity(g, Some(e))->0 != 0 ==> exists|j: int|
            0 <= j < g.fragments.len() && is_candidate_root(#[trigger] g.fragments[j])
                && crate::embedding::similarity(e, g.fragments[j].embedding) == root_similarity(
                g,
                Some(e),
            )->0,
{
    let keep = crate::storage::embedded(Some(0));
    let fs = g.fragments.filter(keep);
    crate::lists::lemma_filter_members(g.fragments, keep);
    if fs.len() > 0 {
        law_nearest(fs, e, 0);
        let n = nearest(fs, e);
        assert(keep(fs[n]) && g.fragments.contains(fs[n]));
        let i = choose|i: int| 0 <= i < g.fragments.len() && g.fragments[i] == fs[n];
        assert(is_candidate_root(g.fragments[i]));
    }
    assert forall|j: int|
        0 <= j < g.fragments.len() && is_candidate_root(
            #[trigger] g.fragments[j],
        ) implies crate::embedding::similarity(e, g.fragments[j].embedding) <= root_similarity(
        g,
        Some(e),
    )->0 by {
        assert(keep(g.fragments[j]));
        let m = choose|m: int| 0 <= m < fs.len() && fs[m] == g.fragments[j];
        law_nearest(fs, e, m);
    }
}

/// What adding and superseding do to a graph: a fragment stands behind all others, an
/// edge of the hierarchy of full weight leads to it from its parent, and one that
/// supersedes another leads to that one by an edge that says so.
pub proof fn law_added_edges(
    g: StorageView,
    f: FragmentView,
    parent: FragmentId,
    old_id: FragmentId,
    new_id: FragmentId,
    stamp: Stamp,
    e: EdgeView,
)
    ensures
        inserting(g, f, None, stamp).result is Ok ==> inserting(g, f, None, stamp).graph == (
        StorageView { fragments: g.fragments.push(f), ..g }),
        inserting(g, f, Some(parent), stamp).result is Ok ==> inserting(
            g,
            f,
            Some(parent),
            stamp,
        ).graph == (StorageView {
            fragments: g.fragments.push(f),
            edges: g.edges.push(
                EdgeView {
                    id: stamp.id,
                    source: parent,
                    target: f.id,
                    kind: EdgeKind::Hierarchical,
                    weight: 1_000_000_000,
                    content: None,
                    created_at: stamp.now,
                },
            ),
            ..g
        }),
        inserting(g, f, Some(parent), stamp).result matches Ok(id) ==> id == f.id,
        superseding(g, old_id, new_id, stamp).result is Ok ==> superseding(
            g,
            old_id,
            new_id,
            stamp,
        ).graph.edges == g.edges.push(
            EdgeView {
                id: stamp.id,
                source: new_id,
                target: old_id,
                kind: EdgeKind::Supersedes,
                weight: 1_000_000_000,
                content: None,
                created_at: stamp.now,
            },
        ),
        linking(g, e).result is Ok ==> linking(g, e).graph == (StorageView {
            edges: g.edges.push(e),
            ..g
        }),
        linking(g, e).result is Err ==> linking(g, e).graph == g,
{
}

} // verus!
