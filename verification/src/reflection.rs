//! Reflection: insights from dense clusters of roots.
//!
//! A root that associative edges connect with at least three other roots is the
//! centre of a cluster. What the cluster has in common becomes a root of its
//! own, derived from the centre and from the roots around it. A root that has
//! taken part in a reflection is not the centre of another one.

use vstd::prelude::*;

use crate::changes::Stamp;
#[allow(unused_imports)]
use crate::changes::Outcome;
use crate::edge::EdgeKind;
#[allow(unused_imports)]
use crate::edge::EdgeView;
use crate::fixed::ONE;
use crate::fragment::{now_unix, Fragment, FragmentId};
#[allow(unused_imports)]
use crate::fragment::FragmentView;
use crate::query::LoreDb;
use crate::storage::StorageError;
#[allow(unused_imports)]
use crate::storage::StorageView;
use crate::text::{is_blank, join, same, trim};

verus! {

/// The connections with other roots that make a root the centre of a cluster.
pub const MIN_CONNECTIONS: usize = 3;

/// An active root with an identifier is in the list.
pub open spec fn has_root(fs: Seq<FragmentView>, id: FragmentId) -> bool {
    crate::storage::fragment_of(fs, id) matches Some(f) && crate::storage::is_active(f) && f.depth
        == 0
}

/// An associative edge between a fragment and another fragment that is an active
/// root.
pub open spec fn leads_to_root(fs: Seq<FragmentView>, id: FragmentId) -> spec_fn(EdgeView) -> bool {
    |e: EdgeView|
        (e.source == id || e.target == id) && e.kind == EdgeKind::Associative
            && crate::storage::other_end(e, id) != id && has_root(
            fs,
            crate::storage::other_end(e, id),
        )
}

/// The root at the other end of an edge.
pub open spec fn root_beyond(fs: Seq<FragmentView>, id: FragmentId) -> spec_fn(
    EdgeView,
) -> FragmentView {
    |e: EdgeView| crate::storage::fragment_of(fs, crate::storage::other_end(e, id))->0
}

/// The roots around a fragment, one for each connection.
pub open spec fn connected_roots(g: StorageView, id: FragmentId) -> Seq<FragmentView> {
    g.edges.filter(leads_to_root(g.fragments, id)).map_values(root_beyond(g.fragments, id))
}

/// An edge of a fragment says that a reflection was derived.
pub open spec fn says_derived(id: FragmentId, e: EdgeView) -> bool {
    (e.source == id || e.target == id) && e.content == Some("derived_from"@)
}

/// The fragment has taken part in a reflection.
pub open spec fn is_reflected(es: Seq<EdgeView>, id: FragmentId) -> bool {
    exists|i: int| 0 <= i < es.len() && says_derived(id, #[trigger] es[i])
}

/// The root is the centre of a cluster that was not reflected on.
pub open spec fn is_centre(g: StorageView) -> spec_fn(FragmentView) -> bool {
    |f: FragmentView|
        f.depth == 0 && crate::storage::is_active(f) && connected_roots(g, f.id).len()
            >= MIN_CONNECTIONS && !is_reflected(g.edges, f.id)
}

/// The request for an insight.
pub open spec fn insight_request(centre: FragmentView, around: Seq<FragmentView>) -> Seq<char> {
    "These pieces of knowledge are closely related:\n\n- "@ + centre.content + "\n"@
        + crate::text::joined(crate::consolidation::bullets(around), "\n"@)
        + "\n\nWrite one higher-order insight that follows from them together and that none of them states by itself, in 2-4 sentences.\n\nRespond with ONLY the insight, no explanation."@
}

/// The root that holds an insight.
pub open spec fn insight_fragment(
    id: FragmentId,
    insight: Seq<char>,
    embedding: Option<Seq<i32>>,
    now: i64,
) -> FragmentView {
    let f = crate::fragment::fresh_fragment(id, insight, 0, now);
    FragmentView {
        embedding: match embedding {
            Some(e) => e,
            None => f.embedding,
        },
        metadata: f.metadata.insert("type"@, "reflection"@),
        ..f
    }
}

/// The outcome of deriving a fragment from the first `n` of some sources: an edge
/// from each, until one is refused.
pub open spec fn deriving(
    g: StorageView,
    sources: Seq<FragmentId>,
    id: FragmentId,
    stamps: Seq<Stamp>,
    n: nat,
) -> Outcome<()>
    decreases n,
{
    if n == 0 {
        Outcome { graph: g, result: Ok(()) }
    } else {
        let o = deriving(g, sources, id, stamps, (n - 1) as nat);
        match o.result {
            Ok(_) => crate::changes::linking(
                o.graph,
                crate::changes::stamped_edge(
                    sources[n - 1],
                    id,
                    EdgeKind::Associative,
                    ONE,
                    Some("derived_from"@),
                    stamps[n - 1],
                ),
            ),
            Err(_) => o,
        }
    }
}

/// The outcome of keeping an insight.
pub open spec fn reflecting(
    g: StorageView,
    f: FragmentView,
    sources: Seq<FragmentId>,
    stamps: Seq<Stamp>,
) -> Outcome<()> {
    match crate::storage::insert_fragment_result(g, f) {
        Ok(_) => deriving(
            StorageView { fragments: g.fragments.push(f), ..g },
            sources,
            f.id,
            stamps,
            sources.len(),
        ),
        Err(x) => Outcome { graph: g, result: Err(x) },
    }
}

/// The text says that a reflection was derived.
fn is_derived_mark(content: &Option<String>) -> (r: bool)
    ensures
        r == (crate::fragment::text_view(*content) == Some("derived_from"@)),
{
    match content {
        Some(c) => same(c.as_str(), "derived_from"),
        None => false,
    }
}

impl LoreDb {
    /// The roots around a fragment, one for each connection.
    pub fn find_connected_roots(&self, id: FragmentId) -> (r: Vec<Fragment>)
        requires
            self.wf(),
        ensures
            crate::fragment::fragment_views(r@) == connected_roots(self@, id),
    {
        let edges = self.storage().edges();
        let ghost es = self@.edges;
        let ghost keep = leads_to_root(self@.fragments, id);
        let ghost to = root_beyond(self@.fragments, id);
        let mut out: Vec<Fragment> = Vec::new();
        let mut i: usize = 0;
        proof {
            crate::lists::lemma_filter_none(es, keep);
            assert(crate::fragment::fragment_views(out@) == es.take(0).filter(keep).map_values(to));
        }
        while i < edges.len()
            invariant
                self.wf(),
                i <= edges.len(),
                es == self@.edges,
                es == crate::edge::edge_views(edges@),
                keep == leads_to_root(self@.fragments, id),
                to == root_beyond(self@.fragments, id),
                crate::fragment::fragment_views(out@) == es.take(i as int).filter(keep).map_values(
                    to,
                ),
            decreases edges.len() - i,
        {
            let e = &edges[i];
            let ghost seen = es.take(i as int).filter(keep);
            proof {
                crate::lists::lemma_filter_next(es, keep, i as int);
                assert(es[i as int] == e@);
                assert(seen.push(e@).map_values(to) == seen.map_values(to).push(to(e@)));
            }
            if (e.source == id || e.target == id) && e.kind == EdgeKind::Associative {
                let other: FragmentId = if e.source == id {
                    e.target
                } else {
                    e.source
                };
                if other != id {
                    if let Some(f) = self.storage().get_fragment(other) {
                        if f.superseded_by.is_none() && f.depth == 0 {
                            assert(crate::fragment::fragment_views(out@.push(f))
                                == crate::fragment::fragment_views(out@).push(f@));
                            out.push(f);
                        }
                    }
                }
            }
            i = i + 1;
        }
        assert(es.take(i as int) == es);
        out
    }

    /// Tells whether a fragment has taken part in a reflection.
    fn has_derived_mark(&self, id: FragmentId) -> (r: bool)
        ensures
            r == is_reflected(self@.edges, id),
    {
        let edges = self.storage().edges();
        let ghost es = self@.edges;
        let mut i: usize = 0;
        while i < edges.len()
            invariant
                i <= edges.len(),
                es == self@.edges,
                es == crate::edge::edge_views(edges@),
                forall|k: int| 0 <= k < i ==> !says_derived(id, #[trigger] es[k]),
            decreases edges.len() - i,
        {
            let e = &edges[i];
            assert(es[i as int] == e@);
            if (e.source == id || e.target == id) && is_derived_mark(&e.content) {
                assert(says_derived(id, es[i as int]));
                return true;
            }
            i = i + 1;
        }
        false
    }

    /// The centres of the clusters that were not reflected on.
    pub fn find_centres(&self) -> (r: Vec<Fragment>)
        requires
            self.wf(),
        ensures
            crate::fragment::fragment_views(r@) == self@.fragments.filter(is_centre(self@)),
    {
        let fragments = self.storage().fragments();
        let ghost fs = self@.fragments;
        let ghost keep = is_centre(self@);
        let mut out: Vec<Fragment> = Vec::new();
        let mut i: usize = 0;
        proof {
            crate::lists::lemma_filter_none(fs, keep);
            assert(crate::fragment::fragment_views(out@) == fs.take(0).filter(keep));
        }
        while i < fragments.len()
            invariant
                self.wf(),
                i <= fragments.len(),
                fs == self@.fragments,
                fs == crate::fragment::fragment_views(fragments@),
                keep == is_centre(self@),
                crate::fragment::fragment_views(out@) == fs.take(i as int).filter(keep),
            decreases fragments.len() - i,
        {
            let f = &fragments[i];
            proof {
                crate::lists::lemma_filter_next(fs, keep, i as int);
                assert(fs[i as int] == f@);
            }
            if f.depth == 0 && f.superseded_by.is_none() {
                let around = self.find_connected_roots(f.id);
                assert(crate::fragment::fragment_views(around@).len() == around.len());
                if around.len() >= MIN_CONNECTIONS && !self.has_derived_mark(f.id) {
                    let copy = f.clone();
                    assert(crate::fragment::fragment_views(out@.push(copy))
                        == crate::fragment::fragment_views(out@).push(copy@));
                    out.push(copy);
                }
            }
            i = i + 1;
        }
        assert(fs.take(i as int) == fs);
        out
    }

    /// Keeps an insight as a root, derived from some fragments, with a given
    /// identifier, time and stamps.
    pub fn reflect_seeded(
        &mut self,
        insight: &str,
        embedding: Option<&Vec<i32>>,
        sources: &Vec<FragmentId>,
        id: FragmentId,
        now: i64,
        stamps: &Vec<Stamp>,
    ) -> (r: Result<(), StorageError>)
        requires
            old(self).wf(),
            stamps.len() == sources.len(),
        ensures
            final(self).wf(),
            ({
                let o = reflecting(
                    old(self)@,
                    insight_fragment(id, insight@, crate::storage::numbers_view(embedding), now),
                    sources@,
                    stamps@,
                );
                final(self)@ == o.graph && r == o.result
            }),
    {
        let mut f = Fragment::new_at(id, insight.to_owned(), 0, now);
        if let Some(e) = embedding {
            f.embedding = crate::fragment::copy_numbers(e);
        }
        f.metadata.insert("type".to_owned(), "reflection".to_owned());
        let ghost whole = insight_fragment(
            id,
            insight@,
            crate::storage::numbers_view(embedding),
            now,
        );
        assert(f@ == whole);
        match self.storage_mut().insert_fragment(&f) {
            Ok(_) => {},
            Err(e) => {
                return Err(e);
            },
        }
        let ghost start = self@;
        let mut i: usize = 0;
        while i < sources.len()
            invariant
                self.wf(),
                i <= sources.len(),
                stamps.len() == sources.len(),
                deriving(start, sources@, id, stamps@, i as nat) == (Outcome::<()> {
                    graph: self@,
                    result: Ok(()),
                }),
                crate::storage::insert_fragment_result(old(self)@, whole) is Ok,
                start == (StorageView {
                    fragments: old(self)@.fragments.push(whole),
                    ..old(self)@
                }),
                whole == insight_fragment(
                    id,
                    insight@,
                    crate::storage::numbers_view(embedding),
                    now,
                ),
            decreases sources.len() - i,
        {
            let linked = self.link_stamped(
                sources[i],
                id,
                EdgeKind::Associative,
                ONE,
                Some("derived_from".to_owned()),
                stamps[i],
            );
            i = i + 1;
            if let Err(e) = linked {
                proof {
                    lemma_deriving_refused(start, sources@, id, stamps@, i as nat, sources@.len());
                }
                return Err(e);
            }
        }
        Ok(())
    }

    /// Keeps an insight as a root, derived from some fragments.
    pub fn reflect(
        &mut self,
        insight: &str,
        embedding: Option<&Vec<i32>>,
        sources: &Vec<FragmentId>,
    ) -> (r: Result<(), StorageError>)
        requires
            old(self).wf(),
        ensures
            final(self).wf(),
            exists|id: FragmentId, now: i64, stamps: Seq<Stamp>|
                crate::fragment::is_random_uuid(id.0) && now >= 0 && stamps.len() == sources.len()
                    && #[trigger] kept_insight(
                    old(self)@,
                    insight@,
                    crate::storage::numbers_view(embedding),
                    sources@,
                    id,
                    now,
                    stamps,
                    final(self)@,
                    r,
                ),
    {
        let id = FragmentId::new();
        let now: i64 = now_unix();
        let mut stamps: Vec<Stamp> = Vec::new();
        while stamps.len() < sources.len()
            invariant
                stamps.len() <= sources.len(),
            decreases sources.len() - stamps.len(),
        {
            stamps.push(Stamp::new());
        }
        let ghost before = self@;
        let r = self.reflect_seeded(insight, embedding, sources, id, now, &stamps);
        assert(kept_insight(
            before,
            insight@,
            crate::storage::numbers_view(embedding),
            sources@,
            id,
            now,
            stamps@,
            self@,
            r,
        ));
        r
    }
}

/// A graph and a result are those of keeping an insight.
pub open spec fn kept_insight(
    g: StorageView,
    insight: Seq<char>,
    embedding: Option<Seq<i32>>,
    sources: Seq<FragmentId>,
    id: FragmentId,
    now: i64,
    stamps: Seq<Stamp>,
    after: StorageView,
    r: Result<(), StorageError>,
) -> bool {
    let o = reflecting(g, insight_fragment(id, insight, embedding, now), sources, stamps);
    after == o.graph && r == o.result
}

/// What is refused stays refused.
proof fn lemma_deriving_refused(
    g: StorageView,
    sources: Seq<FragmentId>,
    id: FragmentId,
    stamps: Seq<Stamp>,
    i: nat,
    n: nat,
)
    requires
        i <= n,
        deriving(g, sources, id, stamps, i).result is Err,
    ensures
        deriving(g, sources, id, stamps, n) == deriving(g, sources, id, stamps, i),
    decreases n - i,
{
    if i < n {
        lemma_deriving_refused(g, sources, id, stamps, i, (n - 1) as nat);
    }
}

/// The request for an insight from a cluster.
pub fn reflection_prompt(centre: &Fragment, around: &Vec<Fragment>) -> (r: String)
    ensures
        r@ == insight_request(centre@, crate::fragment::fragment_views(around@)),
{
    let ghost fs = crate::fragment::fragment_views(around@);
    let mut items: Vec<String> = Vec::new();
    let mut i: usize = 0;
    assert(crate::text::views(items@) == crate::consolidation::bullets(fs).take(0));
    while i < around.len()
        invariant
            i <= around.len(),
            fs == crate::fragment::fragment_views(around@),
            crate::text::views(items@) == crate::consolidation::bullets(fs).take(i as int),
        decreases around.len() - i,
    {
        assert(fs[i as int] == around@[i as int]@);
        let mut item: String = "- ".to_owned();
        item.append(around[i].content.as_str());
        proof {
            assert(crate::text::views(items@.push(item)) == crate::text::views(items@).push(item@));
            assert(crate::consolidation::bullets(fs).take(i + 1)
                == crate::consolidation::bullets(fs).take(i as int).push(item@));
        }
        items.push(item);
        i = i + 1;
    }
    assert(crate::consolidation::bullets(fs).take(i as int) == crate::consolidation::bullets(fs));
    let mut s: String = "These pieces of knowledge are closely related:\n\n- ".to_owned();
    s.append(centre.content.as_str());
    s.append("\n");
    s.append(join(&items, "\n").as_str());
    s.append(
        "\n\nWrite one higher-order insight that follows from them together and that none of them states by itself, in 2-4 sentences.\n\nRespond with ONLY the insight, no explanation.",
    );
    s
}

/// The insight in a reply, if there is one.
pub fn read_insight(reply: &str) -> (r: Option<String>)
    ensures
        match r {
            Some(s) => s@ == crate::text::trimmed(reply@) && s@.len() > 0,
            None => crate::text::trimmed(reply@).len() == 0,
        },
{
    if is_blank(reply) {
        None
    } else {
        Some(trim(reply))
    }
}

/// A source that an insight was derived from has taken part in a reflection: it
/// is not the centre of another one.
pub proof fn law_no_second_reflection(
    g: StorageView,
    f: FragmentView,
    sources: Seq<FragmentId>,
    stamps: Seq<Stamp>,
    k: int,
)
    requires
        reflecting(g, f, sources, stamps).result is Ok,
        0 <= k < sources.len(),
    ensures
        is_reflected(reflecting(g, f, sources, stamps).graph.edges, sources[k]),
        forall|c: FragmentView|
            c.id == sources[k] ==> !#[trigger] is_centre(reflecting(g, f, sources, stamps).graph)(c),
{
    lemma_derived(
        StorageView { fragments: g.fragments.push(f), ..g },
        sources,
        f.id,
        stamps,
        sources.len(),
        k,
    );
}

proof fn lemma_derived(
    g: StorageView,
    sources: Seq<FragmentId>,
    id: FragmentId,
    stamps: Seq<Stamp>,
    n: nat,
    k: int,
)
    requires
        deriving(g, sources, id, stamps, n).result is Ok,
        0 <= k < n,
    ensures
        is_reflected(deriving(g, sources, id, stamps, n).graph.edges, sources[k]),
    decreases n,
{
    let before = deriving(g, sources, id, stamps, (n - 1) as nat);
    let after = deriving(g, sources, id, stamps, n);
    assert(before.result is Ok);
    let e = crate::changes::stamped_edge(
        sources[n - 1],
        id,
        EdgeKind::Associative,
        ONE,
        Some("derived_from"@),
        stamps[n - 1],
    );
    assert(after.graph.edges == before.graph.edges.push(e));
    if k == n - 1 {
        assert(says_derived(sources[k], after.graph.edges.last()));
    } else {
        lemma_derived(g, sources, id, stamps, (n - 1) as nat, k);
        let i = choose|i: int|
            0 <= i < before.graph.edges.len() && says_derived(
                sources[k],
                #[trigger] before.graph.edges[i],
            );
        assert(after.graph.edges[i] == before.graph.edges[i]);
    }
}

/// One edge more is at most one connection more: an associative edge between a fragment
/// and another one that is an active root, whichever way it leads, and no other edge.
pub proof fn law_an_edge_makes_a_connection(g: StorageView, id: FragmentId, e: EdgeView, k: int)
    requires
        crate::storage::unique_fragments(g.fragments),
        0 <= k < g.fragments.len(),
        (e.source == id && e.target == g.fragments[k].id) || (e.target == id && e.source
            == g.fragments[k].id) || (e.source != id && e.target != id),
    ensures
        ({
            let more = StorageView { edges: g.edges.push(e), ..g };
            let other = g.fragments[k];
            let connected = e.kind == EdgeKind::Associative && (e.source == id || e.target == id)
                && other.id != id && other.superseded_by is None && other.depth == 0;
            &&& g.edges.len() == 0 ==> connected_roots(g, id).len() == 0
            &&& connected ==> connected_roots(more, id) == connected_roots(g, id).push(other)
            &&& !connected ==> connected_roots(more, id) == connected_roots(g, id)
        }),
{
    let keep = leads_to_root(g.fragments, id);
    let to = root_beyond(g.fragments, id);
    crate::storage::lemma_fragment_at(g.fragments, k);
    crate::lists::lemma_filter_push(g.edges, keep, e);
    if keep(e) {
        assert(g.edges.filter(keep).push(e).map_values(to) == g.edges.filter(keep).map_values(
            to,
        ).push(to(e)));
    }
    if g.edges.len() == 0 {
        crate::lists::lemma_filter_empty(g.edges, keep);
    }
}

/// The centre of a cluster is an active root with three connections or more that has not
/// taken part in a reflection: no edge that touches it says that something was derived.
pub proof fn law_centres(g: StorageView, f: FragmentView)
    ensures
        is_centre(g)(f) <==> {
            &&& f.depth == 0 && f.superseded_by is None
            &&& connected_roots(g, f.id).len() >= 3
            &&& forall|i: int|
                0 <= i < g.edges.len() && ((#[trigger] g.edges[i]).source == f.id
                    || g.edges[i].target == f.id) ==> g.edges[i].content != Some("derived_from"@)
        },
{
    if is_reflected(g.edges, f.id) {
        let i = choose|i: int| 0 <= i < g.edges.len() && says_derived(f.id, #[trigger] g.edges[i]);
        assert(g.edges[i].content == Some("derived_from"@));
    } else {
        assert forall|i: int|
            0 <= i < g.edges.len() && ((#[trigger] g.edges[i]).source == f.id || g.edges[i].target
                == f.id) implies g.edges[i].content != Some("derived_from"@) by {
            assert(!says_derived(f.id, g.edges[i]));
        }
    }
}

proof fn lemma_derived_edges(
    g: StorageView,
    sources: Seq<FragmentId>,
    id: FragmentId,
    stamps: Seq<Stamp>,
    n: nat,
)
    requires
        n <= sources.len(),
        deriving(g, sources, id, stamps, n).result is Ok,
    ensures
        ({
            let after = deriving(g, sources, id, stamps, n).graph;
            &&& after.fragments == g.fragments
            &&& after.edges.len() == g.edges.len() + n
            &&& forall|i: int| 0 <= i < g.edges.len() ==> after.edges[i] == #[trigger] g.edges[i]
            &&& forall|k: int|
                0 <= k < n ==> after.edges[g.edges.len() + k] == (EdgeView {
                    id: stamps[k].id,
                    source: #[trigger] sources[k],
                    target: id,
                    kind: EdgeKind::Associative,
                    weight: 1_000_000_000,
                    content: Some("derived_from"@),
                    created_at: stamps[k].now,
                })
        }),
    decreases n,
{
    if n > 0 {
        let before = deriving(g, sources, id, stamps, (n - 1) as nat).graph;
        let after = deriving(g, sources, id, stamps, n).graph;
        lemma_derived_edges(g, sources, id, stamps, (n - 1) as nat);
        assert(after.edges.len() == before.edges.len() + 1);
        assert forall|i: int| 0 <= i < g.edges.len() implies after.edges[i]
            == #[trigger] g.edges[i] by {
            assert(before.edges[i] == g.edges[i]);
        }
        assert forall|k: int| 0 <= k < n implies after.edges[g.edges.len() + k] == (EdgeView {
            id: stamps[k].id,
            source: #[trigger] sources[k],
            target: id,
            kind: EdgeKind::Associative,
            weight: 1_000_000_000,
            content: Some("derived_from"@),
            created_at: stamps[k].now,
        }) by {
            if k < n - 1 {
                assert(after.edges[g.edges.len() + k] == before.edges[g.edges.len() + k]);
            }
        }
    }
}

/// An insight that is kept stands behind all that was there, with an edge of full weight
/// from each of its sources that says what it was derived from; nothing else is changed.
pub proof fn law_insights_name_their_sources(
    g: StorageView,
    f: FragmentView,
    sources: Seq<FragmentId>,
    stamps: Seq<Stamp>,
)
    requires
        reflecting(g, f, sources, stamps).result is Ok,
    ensures
        ({
            let after = reflecting(g, f, sources, stamps).graph;
            &&& after.fragments == g.fragments.push(f)
            &&& after.edges.len() == g.edges.len() + sources.len()
            &&& forall|i: int| 0 <= i < g.edges.len() ==> after.edges[i] == #[trigger] g.edges[i]
            &&& forall|k: int|
                0 <= k < sources.len() ==> after.edges[g.edges.len() + k] == (EdgeView {
                    id: stamps[k].id,
                    source: #[trigger] sources[k],
                    target: f.id,
                    kind: EdgeKind::Associative,
                    weight: 1_000_000_000,
                    content: Some("derived_from"@),
                    created_at: stamps[k].now,
                })
        }),
{
    lemma_derived_edges(
        StorageView { fragments: g.fragments.push(f), ..g },
        sources,
        f.id,
        stamps,
        sources.len(),
    );
}

/// An insight is kept as a root with the insight for its content, marked as a reflection,
/// and with its embedding if it has one.
pub proof fn law_insights_are_roots(
    id: FragmentId,
    insight: Seq<char>,
    embedding: Seq<i32>,
    now: i64,
)
    ensures
        ({
            let f = insight_fragment(id, insight, Some(embedding), now);
            let bare = insight_fragment(id, insight, None, now);
            &&& f.id == id && f.content == insight && f.depth == 0 && f.superseded_by is None
            &&& f.metadata.dom().contains("type"@) && f.metadata["type"@] == "reflection"@
            &&& f.embedding == embedding && bare.embedding.len() == 0
            &&& f.created_at == now && f.importance == 500_000_000
            &&& f == (FragmentView { embedding, ..bare })
        }),
{
    crate::fragment::law_new_fragments(id, insight, 0, 500_000_000, now);
}

/// A request for an insight holds what the centre says and what each of the roots around
/// it says, in a line of its own.
pub proof fn law_insight_request_holds_all(
    centre: FragmentView,
    around: Seq<FragmentView>,
    k: int,
)
    requires
        0 <= k < around.len(),
    ensures
        crate::text::contains(insight_request(centre, around), "- "@ + around[k].content),
        crate::text::contains(insight_request(centre, around), centre.content),
{
    let sep = "\n"@;
    let all = crate::consolidation::bullets(around);
    let item = "- "@ + around[k].content;
    let (front, own, rest) = (all.take(k), seq![item], all.skip(k + 1));
    assert(all == front + (own + rest));
    crate::text::law_joined(front, own + rest, item, sep);
    crate::text::law_joined(own, rest, item, sep);
    let before = if front.len() > 0 {
        crate::text::joined(front, sep) + sep
    } else {
        Seq::empty()
    };
    let behind = if rest.len() > 0 {
        sep + crate::text::joined(rest, sep)
    } else {
        Seq::empty()
    };
    assert(front.len() == 0 ==> front + (own + rest) == own + rest);
    assert(rest.len() == 0 ==> own + rest == own);
    let list = crate::text::joined(all, sep);
    assert(list == before + item + behind);
    let head = "These pieces of knowledge are closely related:\n\n- "@;
    let foot =
        "\n\nWrite one higher-order insight that follows from them together and that none of them states by itself, in 2-4 sentences.\n\nRespond with ONLY the insight, no explanation."@;
    let whole = insight_request(centre, around);
    assert(whole == head + centre.content + sep + list + foot);
    assert((head + centre.content + sep + before) + item + (behind + foot) == whole);
    crate::text::law_contains(whole, item);
    assert(head + centre.content + (sep + list + foot) == whole);
    crate::text::law_contains(whole, centre.content);
}

/// An insight that is kept is one more root, behind all others and with the insight for
/// its content; and an edge leads to it from each of its sources, and from nothing else.
pub proof fn law_insight_is_kept(
    g: StorageView,
    insight: Seq<char>,
    embedding: Option<Seq<i32>>,
    sources: Seq<FragmentId>,
    id: FragmentId,
    now: i64,
    stamps: Seq<Stamp>,
    after: StorageView,
)
    requires
        kept_insight(g, insight, embedding, sources, id, now, stamps, after, Ok(())),
    ensures
        after.fragments.len() == g.fragments.len() + 1,
        after.fragments.drop_last() == g.fragments,
        after.fragments.last().id == id,
        after.fragments.last().content == insight,
        after.fragments.last().depth == 0,
        after.fragments.last().superseded_by is None,
        after.fragments.last().created_at == now,
        embedding is Some ==> after.fragments.last().embedding == embedding->0,
        embedding is None ==> after.fragments.last().embedding.len() == 0,
        after.edges.len() == g.edges.len() + sources.len(),
        after.edges.take(g.edges.len() as int) == g.edges,
        forall|k: int|
            0 <= k < sources.len() ==> after.edges[g.edges.len() + k].source
                == #[trigger] sources[k],
        forall|k: int|
            g.edges.len() <= k < after.edges.len() ==> (#[trigger] after.edges[k]).target == id
                && after.edges[k].content == Some("derived_from"@),
{
    let f = insight_fragment(id, insight, embedding, now);
    law_insights_name_their_sources(g, f, sources, stamps);
    match embedding {
        Some(v) => law_insights_are_roots(id, insight, v, now),
        None => law_insights_are_roots(id, insight, Seq::empty(), now),
    }
    assert(f.content == insight && f.depth == 0 && f.created_at == now);
    assert(after.fragments.drop_last() == g.fragments);
    assert(after.edges.take(g.edges.len() as int) == g.edges);
    assert forall|k: int| g.edges.len() <= k < after.edges.len() implies (
    #[trigger] after.edges[k]).target == id && after.edges[k].content == Some("derived_from"@) by {
        let e = after.edges[k];
        assert(e.source == sources[k - g.edges.len()]);
    }
}

} // verus!
