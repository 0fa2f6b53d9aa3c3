//! The tools that the memory offers to agents.
//!
//! A tool answers with data, or with a message where there is none or the
//! request makes no sense.

use vstd::prelude::*;

use crate::changes::Stamp;
use crate::edge::EdgeKind;
#[allow(unused_imports)]
use crate::edge::EdgeView;
use crate::embedding::cosine_similarity;
use crate::fragment::{now_unix, Fragment, FragmentId, ScoredFragment, Tree};
#[allow(unused_imports)]
use crate::fragment::{FragmentView, ScoredView, TreeView};
use crate::query::{take_best, LoreDb};
use crate::relevance::{blend, MIN_RELEVANCE_THRESHOLD};
use crate::storage::{Storage, StorageError};
#[allow(unused_imports)]
use crate::storage::StorageView;
use crate::text::{decimal_text, holds, same, to_chars, to_lowercase};

verus! {

// ---- requests ----

/// A request to search.
#[derive(Debug)]
pub struct SearchParams {
    pub query: String,
    /// The fragment among whose descendants to search.
    pub parent_id: Option<String>,
    pub limit: usize,
    /// Whether to search across associative edges too, where all of the memory
    /// is searched.
    pub deep: bool,
}

/// A request to read a fragment.
#[derive(Debug)]
pub struct ReadParams {
    pub id: String,
}

/// A request to list roots.
#[derive(Debug)]
pub struct ListRootsParams {
    pub limit: usize,
}

/// A request to store knowledge.
#[derive(Debug)]
pub struct StoreMemoryParams {
    pub content: String,
    /// A one-line summary; may be empty.
    pub summary: String,
    pub parent_id: Option<String>,
    pub depth: u32,
}

/// A request to delete a fragment.
#[derive(Debug)]
pub struct DeleteMemoryParams {
    pub fragment_id: String,
}

/// A request to give a fragment new content.
#[derive(Debug)]
pub struct UpdateMemoryParams {
    pub fragment_id: String,
    pub content: String,
}

/// A request to search at a depth.
#[derive(Debug)]
pub struct QueryMemoryParams {
    pub topic: String,
    pub depth: u32,
    pub limit: usize,
}

/// A request for the trees of a topic.
#[derive(Debug)]
pub struct ExploreMemoryParams {
    pub topic: String,
    pub max_depth: u32,
}

/// A request to go on from a fragment.
#[derive(Debug)]
pub struct TraverseMemoryParams {
    pub fragment_id: String,
    /// `children`, `parent` or `associations`.
    pub direction: String,
}

/// A request to list topics.
#[derive(Debug)]
pub struct ListTopicsParams {}

pub fn default_limit() -> (r: usize)
    ensures
        r == 10,
{
    10
}

pub fn default_list_limit() -> (r: usize)
    ensures
        r == 20,
{
    20
}

pub fn default_store_depth() -> (r: u32)
    ensures
        r == 1,
{
    1
}

/// The depth of knowledge that is stored with a summary, if none is given.
pub fn default_detail_depth() -> (r: u32)
    ensures
        r == 2,
{
    2
}

pub fn default_depth() -> (r: u32)
    ensures
        r == 0,
{
    0
}

pub fn default_max_depth() -> (r: u32)
    ensures
        r == 2,
{
    2
}

// ---- answers ----

/// An answer: data, or a message.
#[derive(Debug)]
pub enum Reply<T> {
    Message(String),
    Data(T),
}

/// A fragment that was found.
#[derive(Debug)]
pub struct SearchHit {
    pub id: String,
    pub score: i64,
    pub depth: u32,
}

/// What a hit holds.
#[verifier::ext_equal]
pub struct HitView {
    pub id: Seq<char>,
    pub score: i64,
    pub depth: u32,
}

impl View for SearchHit {
    type V = HitView;

    open spec fn view(&self) -> HitView {
        HitView { id: self.id@, score: self.score, depth: self.depth }
    }
}

/// What the hits of a list hold.
pub open spec fn hit_views(v: Seq<SearchHit>) -> Seq<HitView> {
    Seq::new(v.len(), |i: int| v[i]@)
}

/// The hit that a scored fragment makes.
pub open spec fn hit_of() -> spec_fn(ScoredView) -> HitView {
    |s: ScoredView|
        HitView {
            id: crate::fragment::uuid_text(s.fragment.id.0),
            score: s.score,
            depth: s.fragment.depth,
        }
}

/// The identifiers of fragments, as texts.
pub open spec fn id_texts(fs: Seq<FragmentView>) -> Seq<Seq<char>> {
    Seq::new(fs.len(), |i: int| crate::fragment::uuid_text(fs[i].id.0))
}

// ---- search ----

/// A fragment that has not faded out of sight, and that a query without an
/// embedding finds.
pub open spec fn text_in_sight(query: Seq<char>) -> spec_fn(FragmentView) -> bool {
    |f: FragmentView|
        f.relevance_score > MIN_RELEVANCE_THRESHOLD && crate::text::contains(
            crate::text::lowercase(f.content),
            crate::text::lowercase(query),
        )
}

/// A fragment with its relevance for a score.
pub open spec fn by_relevance() -> spec_fn(FragmentView) -> ScoredView {
    |f: FragmentView| ScoredView { fragment: f, score: f.relevance_score }
}

/// A fragment that has not faded out of sight, with an embedding.
pub open spec fn embedding_in_sight() -> spec_fn(FragmentView) -> bool {
    |f: FragmentView| f.relevance_score > MIN_RELEVANCE_THRESHOLD && f.embedding.len() > 0
}

/// All that a search among some fragments can find, with its scores: by
/// embedding, or by text and relevance.
pub open spec fn scored_among(
    fs: Seq<FragmentView>,
    query: Seq<char>,
    embedding: Option<Seq<i32>>,
) -> Seq<ScoredView> {
    match embedding {
        Some(e) => fs.filter(embedding_in_sight()).map_values(crate::query::scored_by_embedding(e)),
        None => fs.filter(text_in_sight(query)).map_values(by_relevance()),
    }
}

/// What a search among some fragments finds: the best, up to a number of them.
pub open spec fn found_among(
    fs: Seq<FragmentView>,
    query: Seq<char>,
    embedding: Option<Seq<i32>>,
    limit: int,
) -> Seq<ScoredView> {
    crate::query::best(scored_among(fs, query, embedding), limit)
}

/// What comes of a search: a message, or hits; and what is recalled by it.
pub struct SearchOutcome {
    pub message: Option<Seq<char>>,
    pub hits: Seq<HitView>,
    pub recalled: Seq<ScoredView>,
}

/// Nothing but a message.
pub open spec fn only_message(m: Seq<char>) -> SearchOutcome {
    SearchOutcome { message: Some(m), hits: Seq::empty(), recalled: Seq::empty() }
}

/// The message that a search found nothing.
pub open spec fn no_results(query: Seq<char>) -> Seq<char> {
    "No results for '"@ + query + "'."@
}

/// What comes of a search.
pub open spec fn search_outcome(
    g: StorageView,
    query: Seq<char>,
    parent_id: Option<Seq<char>>,
    limit: int,
    deep: bool,
    embedding: Option<Seq<i32>>,
) -> SearchOutcome {
    match parent_id {
        Some(p) => match crate::fragment::uuid_parsed(p) {
            Some(id) => {
                let below = crate::descent::descendants_of(g, FragmentId(id));
                let found = found_among(below, query, embedding, limit);
                if below.len() == 0 {
                    only_message("No children found for this fragment."@)
                } else if found.len() == 0 && embedding is Some {
                    only_message(no_results(query))
                } else {
                    SearchOutcome {
                        message: None,
                        hits: found.map_values(hit_of()),
                        recalled: Seq::empty(),
                    }
                }
            },
            None => only_message("Invalid parent ID: "@ + p),
        },
        None => {
            let found = if deep {
                crate::deep::deep_hits(g, query, embedding, limit)
            } else {
                crate::query::query_hits(g, query, embedding, 0, limit)
            };
            if found.len() == 0 {
                only_message(no_results(query))
            } else {
                SearchOutcome {
                    message: None,
                    hits: found.map_values(hit_of()),
                    recalled: found,
                }
            }
        },
    }
}

/// An answer gives what came of a search.
pub open spec fn answers_search(r: Reply<Vec<SearchHit>>, o: SearchOutcome) -> bool {
    match r {
        Reply::Message(m) => o.message == Some(m@),
        Reply::Data(hits) => o.message is None && hit_views(hits@) == o.hits,
    }
}

/// Turns scored fragments into hits.
fn to_hits(scored: &Vec<ScoredFragment>) -> (r: Vec<SearchHit>)
    ensures
        hit_views(r@) == crate::fragment::scored_views(scored@).map_values(hit_of()),
{
    let ghost all = crate::fragment::scored_views(scored@);
    let mut out: Vec<SearchHit> = Vec::new();
    let mut i: usize = 0;
    while i < scored.len()
        invariant
            i <= scored.len(),
            all == crate::fragment::scored_views(scored@),
            out.len() == i,
            forall|k: int| 0 <= k < i ==> (#[trigger] out@[k])@ == hit_of()(all[k]),
        decreases scored.len() - i,
    {
        assert(all[i as int] == scored@[i as int]@);
        out.push(
            SearchHit {
                id: scored[i].fragment.id.as_str(),
                score: scored[i].score,
                depth: scored[i].fragment.depth,
            },
        );
        i = i + 1;
    }
    assert(hit_views(out@) == all.map_values(hit_of()));
    out
}

/// Searches among some fragments.
pub fn search_among(
    fragments: &Vec<Fragment>,
    query: &str,
    embedding: Option<&Vec<i32>>,
    limit: usize,
) -> (r: Vec<ScoredFragment>)
    ensures
        crate::fragment::scored_views(r@) == found_among(
            crate::fragment::fragment_views(fragments@),
            query@,
            crate::storage::numbers_view(embedding),
            limit as int,
        ),
{
    let ghost fs = crate::fragment::fragment_views(fragments@);
    let ghost keep = match embedding {
        Some(_) => embedding_in_sight(),
        None => text_in_sight(query@),
    };
    let ghost to = match embedding {
        Some(e) => crate::query::scored_by_embedding(e@),
        None => by_relevance(),
    };
    let needle: Vec<char> = to_chars(to_lowercase(query).as_str());
    let mut scored: Vec<ScoredFragment> = Vec::new();
    let mut i: usize = 0;
    proof {
        crate::lists::lemma_filter_none(fs, keep);
        assert(crate::fragment::scored_views(scored@) == fs.take(0).filter(keep).map_values(to));
    }
    while i < fragments.len()
        invariant
            i <= fragments.len(),
            fs == crate::fragment::fragment_views(fragments@),
            needle@ == crate::text::lowercase(query@),
            keep == match embedding {
                Some(_) => embedding_in_sight(),
                None => text_in_sight(query@),
            },
            to == match embedding {
                Some(e) => crate::query::scored_by_embedding(e@),
                None => by_relevance(),
            },
            crate::fragment::scored_views(scored@) == fs.take(i as int).filter(keep).map_values(
                to,
            ),
        decreases fragments.len() - i,
    {
        let f = &fragments[i];
        let ghost seen = fs.take(i as int).filter(keep);
        proof {
            crate::lists::lemma_filter_next(fs, keep, i as int);
            assert(fs[i as int] == f@);
            assert(seen.push(f@).map_values(to) == seen.map_values(to).push(to(f@)));
        }
        let score: Option<i64> = if f.relevance_score <= MIN_RELEVANCE_THRESHOLD {
            None
        } else {
            match embedding {
                Some(e) => if f.embedding.len() > 0 {
                    Some(blend(cosine_similarity(e, &f.embedding), f.relevance_score))
                } else {
                    None
                },
                None => {
                    let lower = to_lowercase(f.content.as_str());
                    if holds(&to_chars(lower.as_str()), &needle) {
                        Some(f.relevance_score)
                    } else {
                        None
                    }
                },
            }
        };
        if let Some(score) = score {
            let s = ScoredFragment { fragment: f.clone(), score };
            assert(crate::fragment::scored_views(scored@.push(s)) == crate::fragment::scored_views(
                scored@,
            ).push(s@));
            scored.push(s);
        }
        i = i + 1;
    }
    assert(fs.take(i as int) == fs);
    take_best(&scored, limit)
}

/// The memory with the tools that it offers.
#[derive(Debug)]
pub struct MemoryServer {
    db: LoreDb,
}

impl View for MemoryServer {
    type V = StorageView;

    closed spec fn view(&self) -> StorageView {
        self.db@
    }
}

/// Puts texts one behind the other.
fn concat3(a: &str, b: &str, c: &str) -> (r: String)
    ensures
        r@ == a@ + b@ + c@,
{
    let mut s: String = a.to_owned();
    s.append(b);
    s.append(c);
    s
}

impl MemoryServer {
    /// The graph keeps the integrity of its references.
    pub open spec fn wf(&self) -> bool {
        crate::storage::is_sound(self@)
    }

    /// The tools of a memory.
    pub fn new(db: LoreDb) -> (r: Self)
        ensures
            r@ == db@,
    {
        MemoryServer { db }
    }

    /// The tools of an empty memory.
    pub fn new_in_memory() -> (r: Result<Self, StorageError>)
        ensures
            match r {
                Ok(s) => s.wf() && s@ == (StorageView {
                    fragments: Seq::empty(),
                    edges: Seq::empty(),
                    watermarks: Map::empty(),
                    turns: Seq::empty(),
                    next_turn: 1,
                }),
                Err(_) => false,
            },
    {
        match Storage::open_memory() {
            Ok(storage) => Ok(MemoryServer { db: LoreDb::new_without_embeddings(storage) }),
            Err(e) => Err(e),
        }
    }

    /// The memory itself.
    pub fn db(&self) -> (r: &LoreDb)
        ensures
            r@ == self@,
    {
        &self.db
    }

    /// The memory itself, to be changed.
    pub fn db_mut(&mut self) -> (r: &mut LoreDb)
        ensures
            r@ == old(self)@,
            final(self)@ == final(r)@,
    {
        &mut self.db
    }

    /// Searches the roots, all of the memory if the search is deep, or the
    /// descendants of a fragment, as of a given time. Hits come without content.
    pub fn search_at(
        &mut self,
        params: &SearchParams,
        embedding: Option<&Vec<i32>>,
        now: i64,
    ) -> (r: Reply<Vec<SearchHit>>)
        requires
            old(self).wf(),
        ensures
            final(self).wf(),
            ({
                let o = search_outcome(
                    old(self)@,
                    params.query@,
                    crate::fragment::text_view(params.parent_id),
                    params.limit as int,
                    params.deep,
                    crate::storage::numbers_view(embedding),
                );
                answers_search(r, o) && final(self)@ == crate::query::all_recalled(
                    old(self)@,
                    o.recalled,
                    now,
                )
            }),
    {
        if let Some(pid) = &params.parent_id {
            let id = match FragmentId::parse(pid.as_str()) {
                Ok(id) => id,
                Err(_) => {
                    let mut s: String = "Invalid parent ID: ".to_owned();
                    s.append(pid.as_str());
                    return Reply::Message(s);
                },
            };
            let below = self.db.descendants(id);
            assert(crate::fragment::fragment_views(below@).len() == below.len());
            if below.len() == 0 {
                return Reply::Message("No children found for this fragment.".to_owned());
            }
            let found = search_among(&below, params.query.as_str(), embedding, params.limit);
            assert(crate::fragment::scored_views(found@).len() == found.len());
            if found.len() == 0 && embedding.is_some() {
                return Reply::Message(concat3("No results for '", params.query.as_str(), "'."));
            }
            return Reply::Data(to_hits(&found));
        }
        let ghost before = self@;
        let found = if params.deep {
            self.db.search_deep_at(params.query.as_str(), embedding, params.limit, now)
        } else {
            self.db.query_at(params.query.as_str(), embedding, 0, params.limit, now)
        };
        assert(crate::fragment::scored_views(found@).len() == found.len());
        if found.len() == 0 {
            assert(crate::fragment::scored_views(found@) == Seq::<ScoredView>::empty());
            return Reply::Message(concat3("No results for '", params.query.as_str(), "'."));
        }
        Reply::Data(to_hits(&found))
    }

    /// Searches the roots, all of the memory if the search is deep, or the
    /// descendants of a fragment. Hits come without content.
    pub fn search(&mut self, params: &SearchParams, embedding: Option<&Vec<i32>>) -> (r: Reply<
        Vec<SearchHit>,
    >)
        requires
            old(self).wf(),
        ensures
            final(self).wf(),
            ({
                let o = search_outcome(
                    old(self)@,
                    params.query@,
                    crate::fragment::text_view(params.parent_id),
                    params.limit as int,
                    params.deep,
                    crate::storage::numbers_view(embedding),
                );
                answers_search(r, o) && exists|now: i64|
                    now >= 0 && final(self)@ == #[trigger] crate::query::all_recalled(
                        old(self)@,
                        o.recalled,
                        now,
                    )
            }),
    {
        let now: i64 = now_unix();
        self.search_at(params, embedding, now)
    }
}

// ---- read ----

/// An associated fragment, and how it relates.
#[derive(Debug)]
pub struct AssociationResponse {
    pub id: String,
    pub relationship: Option<String>,
}

/// What an association holds.
#[verifier::ext_equal]
pub struct AssociationView {
    pub id: Seq<char>,
    pub relationship: Option<Seq<char>>,
}

impl View for AssociationResponse {
    type V = AssociationView;

    open spec fn view(&self) -> AssociationView {
        AssociationView {
            id: self.id@,
            relationship: crate::fragment::text_view(self.relationship),
        }
    }
}

/// What the associations of a list hold.
pub open spec fn association_views(v: Seq<AssociationResponse>) -> Seq<AssociationView> {
    Seq::new(v.len(), |i: int| v[i]@)
}

/// A fragment with its surroundings.
#[derive(Debug)]
pub struct ReadResponse {
    pub id: String,
    pub content: String,
    pub depth: u32,
    pub relevance: i64,
    pub parent_id: Option<String>,
    pub children: Vec<String>,
    pub associations: Vec<AssociationResponse>,
}

/// What a fragment with its surroundings holds.
#[verifier::ext_equal]
pub struct ReadView {
    pub id: Seq<char>,
    pub content: Seq<char>,
    pub depth: u32,
    pub relevance: i64,
    pub parent_id: Option<Seq<char>>,
    pub children: Seq<Seq<char>>,
    pub associations: Seq<AssociationView>,
}

impl View for ReadResponse {
    type V = ReadView;

    open spec fn view(&self) -> ReadView {
        ReadView {
            id: self.id@,
            content: self.content@,
            depth: self.depth,
            relevance: self.relevance,
            parent_id: crate::fragment::text_view(self.parent_id),
            children: crate::text::views(self.children@),
            associations: association_views(self.associations@),
        }
    }
}

/// An associative edge of a fragment.
pub open spec fn associative_edge(id: FragmentId) -> spec_fn(EdgeView) -> bool {
    |e: EdgeView| (e.source == id || e.target == id) && e.kind == EdgeKind::Associative
}

/// The other end of an edge, and how it relates.
pub open spec fn association_of(id: FragmentId) -> spec_fn(EdgeView) -> AssociationView {
    |e: EdgeView|
        AssociationView {
            id: crate::fragment::uuid_text(crate::storage::other_end(e, id).0),
            relationship: e.content,
        }
}

/// A fragment as it was, with its surroundings in a graph.
pub open spec fn surroundings(g: StorageView, f: FragmentView) -> ReadView {
    ReadView {
        id: crate::fragment::uuid_text(f.id.0),
        content: f.content,
        depth: f.depth,
        relevance: f.relevance_score,
        parent_id: match crate::storage::parent_of(g, f.id) {
            Some(p) => Some(crate::fragment::uuid_text(p.id.0)),
            None => None,
        },
        children: id_texts(crate::storage::children_of(g, f.id)),
        associations: g.edges.filter(associative_edge(f.id)).map_values(association_of(f.id)),
    }
}

/// An answer to a request to read, and the graph after it: the fragment is
/// recalled by it.
pub open spec fn answers_read(
    g: StorageView,
    id_text: Seq<char>,
    now: i64,
    r: Reply<ReadResponse>,
    after: StorageView,
) -> bool {
    match crate::fragment::uuid_parsed(id_text) {
        Some(v) => match crate::storage::fragment_of(g.fragments, FragmentId(v)) {
            Some(f) => {
                &&& after == crate::query::recalled(g, FragmentId(v), now)
                &&& r matches Reply::Data(d) && d@ == surroundings(after, f)
            },
            None => {
                &&& after == g
                &&& r matches Reply::Message(m) && m@ == "Fragment "@ + id_text + " not found."@
            },
        },
        None => {
            &&& after == g
            &&& r matches Reply::Message(m) && m@ == "Invalid fragment ID: "@ + id_text
        },
    }
}

/// The identifiers of fragments, as texts.
fn to_id_texts(fragments: &Vec<Fragment>) -> (r: Vec<String>)
    ensures
        crate::text::views(r@) == id_texts(crate::fragment::fragment_views(fragments@)),
{
    let mut out: Vec<String> = Vec::new();
    let mut i: usize = 0;
    while i < fragments.len()
        invariant
            i <= fragments.len(),
            out.len() == i,
            forall|k: int|
                0 <= k < i ==> (#[trigger] out@[k])@ == crate::fragment::uuid_text(
                    fragments@[k].id.0,
                ),
        decreases fragments.len() - i,
    {
        out.push(fragments[i].id.as_str());
        i = i + 1;
    }
    assert(crate::text::views(out@) == id_texts(crate::fragment::fragment_views(fragments@)));
    out
}

/// The associations of a fragment.
fn list_associations(db: &LoreDb, id: FragmentId) -> (r: Vec<AssociationResponse>)
    requires
        db.wf(),
    ensures
        association_views(r@) == db@.edges.filter(associative_edge(id)).map_values(
            association_of(id),
        ),
{
    let edges = db.storage().get_edges_for(id);
    let ghost es = crate::edge::edge_views(edges@);
    let ghost base = crate::storage::touches(id);
    let ghost keep = associative_edge(id);
    let ghost to = association_of(id);
    let mut out: Vec<AssociationResponse> = Vec::new();
    let mut i: usize = 0;
    proof {
        crate::lists::lemma_filter_none(es, keep);
        assert(association_views(out@) == es.take(0).filter(keep).map_values(to));
        crate::lists::lemma_filter_members(db@.edges, base);
    }
    while i < edges.len()
        invariant
            i <= edges.len(),
            es == crate::edge::edge_views(edges@),
            base == crate::storage::touches(id),
            keep == associative_edge(id),
            to == association_of(id),
            forall|k: int| 0 <= k < es.len() ==> base(#[trigger] es[k]),
            association_views(out@) == es.take(i as int).filter(keep).map_values(to),
        decreases edges.len() - i,
    {
        let e = &edges[i];
        let ghost seen = es.take(i as int).filter(keep);
        proof {
            crate::lists::lemma_filter_next(es, keep, i as int);
            assert(es[i as int] == e@);
            assert(base(es[i as int]));
            assert(seen.push(e@).map_values(to) == seen.map_values(to).push(to(e@)));
        }
        if e.kind == EdgeKind::Associative {
            let other: FragmentId = if e.source == id {
                e.target
            } else {
                e.source
            };
            let a = AssociationResponse {
                id: other.as_str(),
                relationship: crate::fragment::copy_text(&e.content),
            };
            assert(association_views(out@.push(a)) == association_views(out@).push(a@));
            out.push(a);
        }
        i = i + 1;
    }
    proof {
        assert(es.take(i as int) == es);
        crate::query::lemma_filter_twice(db@.edges, base, keep);
    }
    out
}

impl MemoryServer {
    /// Reads a fragment with its surroundings, as of a given time.
    pub fn read_at(&mut self, params: &ReadParams, now: i64) -> (r: Reply<ReadResponse>)
        requires
            old(self).wf(),
        ensures
            final(self).wf(),
            answers_read(old(self)@, params.id@, now, r, final(self)@),
    {
        let id = match FragmentId::parse(params.id.as_str()) {
            Ok(id) => id,
            Err(_) => {
                let mut s: String = "Invalid fragment ID: ".to_owned();
                s.append(params.id.as_str());
                return Reply::Message(s);
            },
        };
        match self.db.storage().get_fragment(id) {
            Some(f) => {
                self.db.reinforce_on_access(id, now);
                let parent_id = match self.db.parent(id) {
                    Some(p) => Some(p.id.as_str()),
                    None => None,
                };
                let children = self.db.children(id);
                Reply::Data(
                    ReadResponse {
                        id: f.id.as_str(),
                        content: f.content,
                        depth: f.depth,
                        relevance: f.relevance_score,
                        parent_id,
                        children: to_id_texts(&children),
                        associations: list_associations(&self.db, id),
                    },
                )
            },
            None => Reply::Message(concat3("Fragment ", params.id.as_str(), " not found.")),
        }
    }

    /// Reads a fragment with its surroundings.
    pub fn read(&mut self, params: &ReadParams) -> (r: Reply<ReadResponse>)
        requires
            old(self).wf(),
        ensures
            final(self).wf(),
            exists|now: i64|
                now >= 0 && #[trigger] answers_read(old(self)@, params.id@, now, r, final(self)@),
    {
        let now: i64 = now_unix();
        self.read_at(params, now)
    }
}

// ---- roots ----

/// A root, and how many children it has.
#[derive(Debug)]
pub struct RootHit {
    pub id: String,
    pub children_count: usize,
}

/// A root is told of as the graph has it.
pub open spec fn is_root_hit(g: StorageView, f: FragmentView, hit: RootHit) -> bool {
    hit.id@ == crate::fragment::uuid_text(f.id.0) && hit.children_count
        == crate::storage::children_of(g, f.id).len()
}

impl MemoryServer {
    /// Lists the roots, the most relevant first, up to a number of them.
    pub fn list_roots(&self, params: &ListRootsParams) -> (r: Reply<Vec<RootHit>>)
        requires
            self.wf(),
        ensures
            ({
                let roots = crate::query::roots_of(self@);
                match r {
                    Reply::Message(m) => roots.len() == 0 && m@ == "No knowledge stored yet."@,
                    Reply::Data(hits) => {
                        &&& roots.len() > 0
                        &&& hits.len() == crate::lists::first_items(
                            roots,
                            params.limit as int,
                        ).len()
                        &&& forall|i: int|
                            0 <= i < hits.len() ==> is_root_hit(
                                self@,
                                roots[i],
                                #[trigger] hits@[i],
                            )
                    },
                }
            }),
    {
        let roots = self.db.list_roots(None);
        let ghost fs = crate::fragment::fragment_views(roots@);
        assert(fs.len() == roots.len());
        if roots.len() == 0 {
            return Reply::Message("No knowledge stored yet.".to_owned());
        }
        let mut out: Vec<RootHit> = Vec::new();
        let mut i: usize = 0;
        while i < roots.len() && i < params.limit
            invariant
                self.wf(),
                i <= roots.len(),
                i <= params.limit,
                fs == crate::fragment::fragment_views(roots@),
                out.len() == i,
                forall|k: int| 0 <= k < i ==> is_root_hit(self@, fs[k], #[trigger] out@[k]),
            decreases roots.len() - i,
        {
            let children = self.db.children(roots[i].id);
            assert(fs[i as int] == roots@[i as int]@);
            assert(crate::fragment::fragment_views(children@).len() == children.len());
            out.push(RootHit { id: roots[i].id.as_str(), children_count: children.len() });
            i = i + 1;
        }
        Reply::Data(out)
    }
}

// ---- store, delete, update ----

/// What became of a request to change the memory.
#[derive(Debug)]
pub struct Receipt {
    pub status: String,
    pub id: String,
    pub depth: Option<u32>,
    pub parent_id: Option<String>,
}

/// The similarity above which a root is taken for the parent of new knowledge.
pub const PARENT_SIMILARITY: i64 = 300_000_000;

/// The parent of new knowledge: the one that is given, and otherwise the root
/// below which it belongs, unless it is to be a root itself.
pub open spec fn store_parent(
    g: StorageView,
    explicit: Option<FragmentId>,
    depth: u32,
    embedding: Option<Seq<i32>>,
) -> Option<FragmentId> {
    match explicit {
        Some(p) => Some(p),
        None => if depth > 0 {
            crate::changes::close_root(g, embedding, PARENT_SIMILARITY)
        } else {
            None
        },
    }
}

/// The fragment of new knowledge.
pub open spec fn stored_fragment(
    params: StoreMemoryParams,
    embedding: Option<Seq<i32>>,
    id: FragmentId,
    now: i64,
) -> FragmentView {
    FragmentView {
        summary: params.summary@,
        embedding: match embedding {
            Some(e) => e,
            None => Seq::empty(),
        },
        ..crate::fragment::fresh_fragment(id, params.content@, params.depth, now)
    }
}

/// The words for a refusal.
pub open spec fn refusal(e: StorageError) -> Seq<char> {
    match e {
        StorageError::DuplicateId => "identifier is taken"@,
        StorageError::BrokenReference => "reference to a missing fragment"@,
        StorageError::Full => "no identifier is left"@,
    }
}

/// Writes the words for a refusal.
pub fn refusal_text(e: StorageError) -> (r: String)
    ensures
        r@ == refusal(e),
{
    match e {
        StorageError::DuplicateId => "identifier is taken".to_owned(),
        StorageError::BrokenReference => "reference to a missing fragment".to_owned(),
        StorageError::Full => "no identifier is left".to_owned(),
    }
}

/// An answer to a request to store, and the graph after it, with the parent that
/// was chosen.
pub open spec fn answers_store(
    g: StorageView,
    f: FragmentView,
    parent: Option<FragmentId>,
    stamp: Stamp,
    r: Reply<Receipt>,
    after: StorageView,
) -> bool {
    let o = crate::changes::inserting(g, f, parent, stamp);
    &&& after == o.graph
    &&& match o.result {
        Ok(id) => r matches Reply::Data(d) && d.status@ == "stored"@ && d.id@
            == crate::fragment::uuid_text(id.0) && crate::fragment::uuid_parsed(d.id@) == Some(id.0)
            && d.depth == Some(f.depth)
            && crate::fragment::text_view(d.parent_id) == match parent {
            Some(p) => Some(crate::fragment::uuid_text(p.0)),
            None => None,
        },
        Err(e) => r matches Reply::Message(m) && m@ == "Failed to store: "@ + refusal(e),
    }
}

/// An answer to a request to store, and the graph after it. A parent that is no
/// identifier is refused.
pub open spec fn store_answered(
    g: StorageView,
    params: StoreMemoryParams,
    embedding: Option<Seq<i32>>,
    id: FragmentId,
    now: i64,
    stamp: Stamp,
    r: Reply<Receipt>,
    after: StorageView,
) -> bool {
    let f = stored_fragment(params, embedding, id, now);
    match crate::fragment::text_view(params.parent_id) {
        Some(p) => match crate::fragment::uuid_parsed(p) {
            Some(v) => answers_store(
                g,
                f,
                store_parent(g, Some(FragmentId(v)), params.depth, embedding),
                stamp,
                r,
                after,
            ),
            None => after == g && (r matches Reply::Message(m) && m@ == "Invalid parent ID: "@ + p),
        },
        None => answers_store(
            g,
            f,
            store_parent(g, None, params.depth, embedding),
            stamp,
            r,
            after,
        ),
    }
}

/// A receipt for knowledge that was stored with a summary.
#[derive(Debug)]
pub struct StoredMemory {
    pub status: String,
    pub fragment_id: String,
    pub summary: String,
    pub depth: u32,
}

/// An answer to a request to store below the parent that it names, if any, and
/// the graph after it.
pub open spec fn store_memory_answered(
    g: StorageView,
    params: StoreMemoryParams,
    embedding: Option<Seq<i32>>,
    id: FragmentId,
    now: i64,
    stamp: Stamp,
    r: Reply<StoredMemory>,
    after: StorageView,
) -> bool {
    let f = stored_fragment(params, embedding, id, now);
    match named_parent(params) {
        Ok(parent) => {
            let o = crate::changes::inserting(g, f, parent, stamp);
            &&& after == o.graph
            &&& match o.result {
                Ok(stored) => r matches Reply::Data(d) && d.status@ == "stored"@ && d.fragment_id@
                    == crate::fragment::uuid_text(stored.0) && crate::fragment::uuid_parsed(
                    d.fragment_id@,
                ) == Some(stored.0) && d.summary@ == params.summary@ && d.depth == params.depth,
                Err(e) => r matches Reply::Message(m) && m@ == "Failed to store memory: "@
                    + refusal(e),
            }
        },
        Err(p) => after == g && (r matches Reply::Message(m) && m@ == "Invalid parent ID: "@ + p),
    }
}

/// The parent that a request names, if any, or the text that is no identifier.
pub open spec fn named_parent(params: StoreMemoryParams) -> Result<
    Option<FragmentId>,
    Seq<char>,
> {
    match crate::fragment::text_view(params.parent_id) {
        Some(p) => match crate::fragment::uuid_parsed(p) {
            Some(v) => Ok(Some(FragmentId(v))),
            None => Err(p),
        },
        None => Ok(None),
    }
}

/// An answer to a request to delete, and the graph after it.
pub open spec fn delete_answered(
    g: StorageView,
    id_text: Seq<char>,
    r: Reply<Receipt>,
    after: StorageView,
) -> bool {
    match crate::fragment::uuid_parsed(id_text) {
        Some(v) => {
            &&& after == crate::storage::without(g, FragmentId(v))
            &&& r matches Reply::Data(d) && d.status@ == "deleted"@ && d.id@ == id_text && d.depth
                is None && d.parent_id is None
        },
        None => after == g && (r matches Reply::Message(m) && m@ == "Invalid fragment ID: "@
            + id_text),
    }
}

/// The summary of a fragment; empty where there is none.
pub open spec fn summary_of(g: StorageView, id: FragmentId) -> Seq<char> {
    match crate::storage::fragment_of(g.fragments, id) {
        Some(f) => f.summary,
        None => Seq::empty(),
    }
}

/// An answer to a request for new content, and the graph after it.
pub open spec fn update_answered(
    g: StorageView,
    params: UpdateMemoryParams,
    embedding: Option<Seq<i32>>,
    now: i64,
    r: Reply<Receipt>,
    after: StorageView,
) -> bool {
    match crate::fragment::uuid_parsed(params.fragment_id@) {
        Some(v) => {
            &&& after == (StorageView {
                fragments: crate::storage::updated(
                    g.fragments,
                    FragmentId(v),
                    crate::storage::rewritten(
                        params.content@,
                        summary_of(g, FragmentId(v)),
                        embedding,
                        now,
                    ),
                ),
                ..g
            })
            &&& r matches Reply::Data(d) && d.status@ == "updated"@ && d.id@ == params.fragment_id@
                && d.depth is None && d.parent_id is None
        },
        None => after == g && (r matches Reply::Message(m) && m@ == "Invalid fragment ID: "@
            + params.fragment_id@),
    }
}

impl MemoryServer {
    /// Stores knowledge, with a given identifier, time and stamp.
    pub fn store_seeded(
        &mut self,
        params: &StoreMemoryParams,
        embedding: Option<&Vec<i32>>,
        id: FragmentId,
        now: i64,
        stamp: Stamp,
    ) -> (r: Reply<Receipt>)
        requires
            old(self).wf(),
        ensures
            final(self).wf(),
            store_answered(
                old(self)@,
                *params,
                crate::storage::numbers_view(embedding),
                id,
                now,
                stamp,
                r,
                final(self)@,
            ),
    {
        let mut explicit: Option<FragmentId> = None;
        if let Some(pid) = &params.parent_id {
            match FragmentId::parse(pid.as_str()) {
                Ok(p) => {
                    explicit = Some(p);
                },
                Err(_) => {
                    let mut s: String = "Invalid parent ID: ".to_owned();
                    s.append(pid.as_str());
                    return Reply::Message(s);
                },
            }
        }
        let parent: Option<FragmentId> = if explicit.is_some() {
            explicit
        } else if params.depth > 0 {
            self.db.find_best_parent(embedding, PARENT_SIMILARITY)
        } else {
            None
        };
        let mut f = Fragment::new_at(id, params.content.clone(), params.depth, now);
        f.summary = params.summary.clone();
        if let Some(e) = embedding {
            f.embedding = crate::fragment::copy_numbers(e);
        }
        match self.db.insert_stamped(f, parent, stamp) {
            Ok(stored) => Reply::Data(
                Receipt {
                    status: "stored".to_owned(),
                    id: stored.as_str(),
                    depth: Some(params.depth),
                    parent_id: match parent {
                        Some(p) => Some(p.as_str()),
                        None => None,
                    },
                },
            ),
            Err(e) => {
                let mut s: String = "Failed to store: ".to_owned();
                s.append(refusal_text(e).as_str());
                Reply::Message(s)
            },
        }
    }

    /// Stores knowledge.
    pub fn store(&mut self, params: &StoreMemoryParams, embedding: Option<&Vec<i32>>) -> (r: Reply<
        Receipt,
    >)
        requires
            old(self).wf(),
        ensures
            final(self).wf(),
            exists|id: FragmentId, now: i64, stamp: Stamp|
                crate::fragment::is_random_uuid(id.0) && now >= 0 && crate::changes::is_drawn(stamp)
                    && #[trigger] store_answered(
                    old(self)@,
                    *params,
                    crate::storage::numbers_view(embedding),
                    id,
                    now,
                    stamp,
                    r,
                    final(self)@,
                ),
    {
        let id = FragmentId::new();
        let now: i64 = now_unix();
        let stamp = Stamp::new();
        self.store_seeded(params, embedding, id, now, stamp)
    }

    /// Stores knowledge below the parent that the request names, if any, with a
    /// given identifier, time and stamp.
    pub fn store_memory_seeded(
        &mut self,
        params: &StoreMemoryParams,
        embedding: Option<&Vec<i32>>,
        id: FragmentId,
        now: i64,
        stamp: Stamp,
    ) -> (r: Reply<StoredMemory>)
        requires
            old(self).wf(),
        ensures
            final(self).wf(),
            store_memory_answered(
                old(self)@,
                *params,
                crate::storage::numbers_view(embedding),
                id,
                now,
                stamp,
                r,
                final(self)@,
            ),
    {
        let mut parent: Option<FragmentId> = None;
        if let Some(pid) = &params.parent_id {
            match FragmentId::parse(pid.as_str()) {
                Ok(p) => {
                    parent = Some(p);
                },
                Err(_) => {
                    let mut s: String = "Invalid parent ID: ".to_owned();
                    s.append(pid.as_str());
                    return Reply::Message(s);
                },
            }
        }
        let mut f = Fragment::new_at(id, params.content.clone(), params.depth, now);
        f.summary = params.summary.clone();
        if let Some(e) = embedding {
            f.embedding = crate::fragment::copy_numbers(e);
        }
        match self.db.insert_stamped(f, parent, stamp) {
            Ok(stored) => Reply::Data(
                StoredMemory {
                    status: "stored".to_owned(),
                    fragment_id: stored.as_str(),
                    summary: params.summary.clone(),
                    depth: params.depth,
                },
            ),
            Err(e) => {
                let mut s: String = "Failed to store memory: ".to_owned();
                s.append(refusal_text(e).as_str());
                Reply::Message(s)
            },
        }
    }

    /// Stores knowledge below the parent that the request names, if any.
    pub fn store_memory(&mut self, params: &StoreMemoryParams, embedding: Option<&Vec<i32>>) -> (r:
        Reply<StoredMemory>)
        requires
            old(self).wf(),
        ensures
            final(self).wf(),
            exists|id: FragmentId, now: i64, stamp: Stamp|
                crate::fragment::is_random_uuid(id.0) && now >= 0 && crate::changes::is_drawn(stamp)
                    && #[trigger] store_memory_answered(
                    old(self)@,
                    *params,
                    crate::storage::numbers_view(embedding),
                    id,
                    now,
                    stamp,
                    r,
                    final(self)@,
                ),
    {
        let id = FragmentId::new();
        let now: i64 = now_unix();
        let stamp = Stamp::new();
        self.store_memory_seeded(params, embedding, id, now, stamp)
    }

    /// Deletes a fragment and all its edges.
    pub fn delete(&mut self, params: &DeleteMemoryParams) -> (r: Reply<Receipt>)
        requires
            old(self).wf(),
        ensures
            final(self).wf(),
            delete_answered(old(self)@, params.fragment_id@, r, final(self)@),
    {
        match FragmentId::parse(params.fragment_id.as_str()) {
            Ok(id) => match self.db.prune(id) {
                Ok(_) => Reply::Data(
                    Receipt {
                        status: "deleted".to_owned(),
                        id: params.fragment_id.clone(),
                        depth: None,
                        parent_id: None,
                    },
                ),
                Err(e) => {
                    let mut s: String = "Failed to delete: ".to_owned();
                    s.append(refusal_text(e).as_str());
                    Reply::Message(s)
                },
            },
            Err(_) => {
                let mut s: String = "Invalid fragment ID: ".to_owned();
                s.append(params.fragment_id.as_str());
                Reply::Message(s)
            },
        }
    }

    /// Gives a fragment new content, and the embedding of that content if there
    /// is one; it keeps its summary.
    pub fn update(&mut self, params: &UpdateMemoryParams, embedding: Option<&Vec<i32>>) -> (r: Reply<
        Receipt,
    >)
        requires
            old(self).wf(),
        ensures
            final(self).wf(),
            exists|now: i64|
                now >= 0 && #[trigger] update_answered(
                    old(self)@,
                    *params,
                    crate::storage::numbers_view(embedding),
                    now,
                    r,
                    final(self)@,
                ),
    {
        match FragmentId::parse(params.fragment_id.as_str()) {
            Ok(id) => {
                let summary = match self.db.storage().get_fragment(id) {
                    Some(f) => f.summary,
                    None => String::new(),
                };
                let ghost before = self@;
                let ghost kept = summary_of(before, id);
                assert(summary@ == kept);
                self.db.update(id, params.content.as_str(), summary.as_str(), embedding);
                let reply = Reply::Data(
                    Receipt {
                        status: "updated".to_owned(),
                        id: params.fragment_id.clone(),
                        depth: None,
                        parent_id: None,
                    },
                );
                proof {
                    let e = crate::storage::numbers_view(embedding);
                    let now = choose|now: i64|
                        now >= 0 && self@ == (StorageView {
                            fragments: #[trigger] crate::storage::updated(
                                before.fragments,
                                id,
                                crate::storage::rewritten(params.content@, summary@, e, now),
                            ),
                            ..before
                        });
                    assert(update_answered(before, *params, e, now, reply, self@));
                }
                reply
            },
            Err(_) => {
                let mut s: String = "Invalid fragment ID: ".to_owned();
                s.append(params.fragment_id.as_str());
                let reply = Reply::Message(s);
                assert(update_answered(
                    self@,
                    *params,
                    crate::storage::numbers_view(embedding),
                    0,
                    reply,
                    self@,
                ));
                reply
            },
        }
    }
}

// ---- zooming ----

/// A fragment, with a score if it was searched for.
#[derive(Debug)]
pub struct FragmentResponse {
    pub id: String,
    pub summary: String,
    pub content: String,
    pub depth: u32,
    pub score: Option<i64>,
}

/// What a fragment in an answer holds.
#[verifier::ext_equal]
pub struct ResponseView {
    pub id: Seq<char>,
    pub summary: Seq<char>,
    pub content: Seq<char>,
    pub depth: u32,
    pub score: Option<i64>,
}

impl View for FragmentResponse {
    type V = ResponseView;

    open spec fn view(&self) -> ResponseView {
        ResponseView {
            id: self.id@,
            summary: self.summary@,
            content: self.content@,
            depth: self.depth,
            score: self.score,
        }
    }
}

/// What the fragments in an answer hold.
pub open spec fn response_views(v: Seq<FragmentResponse>) -> Seq<ResponseView> {
    Seq::new(v.len(), |i: int| v[i]@)
}

/// A fragment in an answer.
pub open spec fn response_of(f: FragmentView, score: Option<i64>) -> ResponseView {
    ResponseView {
        id: crate::fragment::uuid_text(f.id.0),
        summary: f.summary,
        content: f.content,
        depth: f.depth,
        score,
    }
}

impl FragmentResponse {
    /// A fragment in an answer.
    pub fn from_fragment(f: &Fragment, score: Option<i64>) -> (r: Self)
        ensures
            r@ == response_of(f@, score),
    {
        FragmentResponse {
            id: f.id.as_str(),
            summary: f.summary.clone(),
            content: f.content.clone(),
            depth: f.depth,
            score,
        }
    }
}

/// A fragment and what is below it.
#[derive(Debug)]
pub struct TreeResponse {
    pub id: String,
    pub summary: String,
    pub content: String,
    pub depth: u32,
    pub children: Vec<TreeResponse>,
}

/// An answer tells of a tree.
pub open spec fn tells_of_tree(r: TreeResponse, t: TreeView) -> bool
    decreases r,
{
    &&& r.id@ == crate::fragment::uuid_text(t.fragment.id.0)
    &&& r.summary@ == t.fragment.summary
    &&& r.content@ == t.fragment.content
    &&& r.depth == t.fragment.depth
    &&& tells_of_forest(r.children@, t.children)
}

/// An answer tells of a list of trees.
pub open spec fn tells_of_forest(r: Seq<TreeResponse>, t: Seq<TreeView>) -> bool
    decreases r,
{
    if r.len() == 0 {
        t.len() == 0
    } else {
        t.len() > 0 && tells_of_forest(r.drop_last(), t.drop_last()) && tells_of_tree(
            r.last(),
            t.last(),
        )
    }
}

impl TreeResponse {
    /// A tree in an answer.
    pub fn from_tree(tree: &Tree) -> (r: Self)
        ensures
            tells_of_tree(r, crate::fragment::tree_view(*tree)),
        decreases *tree,
    {
        let mut children: Vec<TreeResponse> = Vec::new();
        let ghost below = crate::fragment::forest_view(tree.children@);
        let ghost n = tree.children@.len() as int;
        let mut i: usize = 0;
        proof {
            lemma_forest_len(tree.children@);
        }
        while i < tree.children.len()
            invariant
                i <= tree.children.len(),
                n == tree.children.len(),
                below == crate::fragment::forest_view(tree.children@),
                below.len() == n,
                children.len() == i,
                tells_of_forest(children@, below.take(i as int)),
            decreases n - i,
        {
            let child = TreeResponse::from_tree(&tree.children[i]);
            proof {
                lemma_forest_at(tree.children@, i as int);
                assert(children@.push(child).drop_last() == children@);
                assert(below.take(i + 1).drop_last() == below.take(i as int));
                assert(below.take(i + 1).last() == below[i as int]);
            }
            children.push(child);
            i = i + 1;
        }
        assert(below.take(i as int) == below);
        TreeResponse {
            id: tree.fragment.id.as_str(),
            summary: tree.fragment.summary.clone(),
            content: tree.fragment.content.clone(),
            depth: tree.fragment.depth,
            children,
        }
    }
}

proof fn lemma_forest_len(v: Seq<Tree>)
    ensures
        crate::fragment::forest_view(v).len() == v.len(),
    decreases v.len(),
{
    if v.len() > 0 {
        lemma_forest_len(v.drop_last());
    }
}

proof fn lemma_forest_at(v: Seq<Tree>, i: int)
    requires
        0 <= i < v.len(),
    ensures
        crate::fragment::forest_view(v)[i] == crate::fragment::tree_view(v[i]),
    decreases v.len(),
{
    lemma_forest_len(v);
    lemma_forest_len(v.drop_last());
    if i < v.len() - 1 {
        lemma_forest_at(v.drop_last(), i);
        assert(v.drop_last()[i] == v[i]);
    }
}

/// A topic, and how many children it has.
#[derive(Debug)]
pub struct TopicResponse {
    pub id: String,
    pub summary: String,
    pub content: String,
    pub child_count: usize,
}

/// A topic is told of as the graph has it.
pub open spec fn is_topic(g: StorageView, f: FragmentView, t: TopicResponse) -> bool {
    &&& t.id@ == crate::fragment::uuid_text(f.id.0)
    &&& t.summary@ == f.summary
    &&& t.content@ == f.content
    &&& t.child_count == crate::storage::children_of(g, f.id).len()
}

/// The fragments in a direction from a fragment; nothing where there is no such
/// direction.
pub open spec fn in_direction(g: StorageView, id: FragmentId, direction: Seq<char>) -> Option<
    Seq<FragmentView>,
> {
    if direction == "children"@ {
        Some(crate::storage::children_of(g, id))
    } else if direction == "parent"@ {
        Some(
            match crate::storage::parent_of(g, id) {
                Some(p) => seq![p],
                None => Seq::empty(),
            },
        )
    } else if direction == "associations"@ {
        Some(crate::storage::associations_of(g, id))
    } else {
        None
    }
}

/// The fragments of a search in an answer.
pub open spec fn scored_response() -> spec_fn(ScoredView) -> ResponseView {
    |s: ScoredView| response_of(s.fragment, Some(s.score))
}

/// The fragments of a list in an answer.
pub open spec fn plain_response() -> spec_fn(FragmentView) -> ResponseView {
    |f: FragmentView| response_of(f, None)
}

/// The message that nothing was found at a depth.
pub open spec fn nothing_at_depth(topic: Seq<char>, depth: u32) -> Seq<char> {
    "No memories found for topic '"@ + topic + "' at depth "@ + crate::text::decimal(depth as nat)
        + "."@
}

/// An answer to a search at a depth.
pub open spec fn answers_query(
    topic: Seq<char>,
    depth: u32,
    hits: Seq<ScoredView>,
    r: Reply<Vec<FragmentResponse>>,
) -> bool {
    match r {
        Reply::Message(m) => hits.len() == 0 && m@ == nothing_at_depth(topic, depth),
        Reply::Data(d) => hits.len() > 0 && response_views(d@) == hits.map_values(
            scored_response(),
        ),
    }
}

/// The fragments of a list in an answer.
fn to_responses(fragments: &Vec<Fragment>) -> (r: Vec<FragmentResponse>)
    ensures
        response_views(r@) == crate::fragment::fragment_views(fragments@).map_values(
            plain_response(),
        ),
{
    let ghost fs = crate::fragment::fragment_views(fragments@);
    let mut out: Vec<FragmentResponse> = Vec::new();
    let mut i: usize = 0;
    while i < fragments.len()
        invariant
            i <= fragments.len(),
            fs == crate::fragment::fragment_views(fragments@),
            out.len() == i,
            forall|k: int| 0 <= k < i ==> (#[trigger] out@[k])@ == response_of(fs[k], None),
        decreases fragments.len() - i,
    {
        assert(fs[i as int] == fragments@[i as int]@);
        out.push(FragmentResponse::from_fragment(&fragments[i], None));
        i = i + 1;
    }
    assert(response_views(out@) == fs.map_values(plain_response()));
    out
}

impl MemoryServer {
    /// Searches at a depth, as of a given time.
    pub fn query_memory_at(
        &mut self,
        params: &QueryMemoryParams,
        embedding: Option<&Vec<i32>>,
        now: i64,
    ) -> (r: Reply<Vec<FragmentResponse>>)
        requires
            old(self).wf(),
        ensures
            final(self).wf(),
            ({
                let hits = crate::query::query_hits(
                    old(self)@,
                    params.topic@,
                    crate::storage::numbers_view(embedding),
                    params.depth,
                    params.limit as int,
                );
                answers_query(params.topic@, params.depth, hits, r) && final(self)@
                    == crate::query::all_recalled(old(self)@, hits, now)
            }),
    {
        let found = self.db.query_at(
            params.topic.as_str(),
            embedding,
            params.depth,
            params.limit,
            now,
        );
        let ghost hits = crate::fragment::scored_views(found@);
        assert(hits.len() == found.len());
        if found.len() == 0 {
            let mut s: String = "No memories found for topic '".to_owned();
            s.append(params.topic.as_str());
            s.append("' at depth ");
            s.append(decimal_text(params.depth as u64).as_str());
            s.append(".");
            return Reply::Message(s);
        }
        let mut out: Vec<FragmentResponse> = Vec::new();
        let mut i: usize = 0;
        while i < found.len()
            invariant
                i <= found.len(),
                hits == crate::fragment::scored_views(found@),
                out.len() == i,
                forall|k: int|
                    0 <= k < i ==> (#[trigger] out@[k])@ == response_of(
                        hits[k].fragment,
                        Some(hits[k].score),
                    ),
            decreases found.len() - i,
        {
            assert(hits[i as int] == found@[i as int]@);
            out.push(FragmentResponse::from_fragment(&found[i].fragment, Some(found[i].score)));
            i = i + 1;
        }
        assert(response_views(out@) == hits.map_values(scored_response()));
        Reply::Data(out)
    }

    /// Searches at a depth.
    pub fn query_memory(
        &mut self,
        params: &QueryMemoryParams,
        embedding: Option<&Vec<i32>>,
    ) -> (r: Reply<Vec<FragmentResponse>>)
        requires
            old(self).wf(),
        ensures
            final(self).wf(),
            ({
                let hits = crate::query::query_hits(
                    old(self)@,
                    params.topic@,
                    crate::storage::numbers_view(embedding),
                    params.depth,
                    params.limit as int,
                );
                answers_query(params.topic@, params.depth, hits, r) && exists|now: i64|
                    now >= 0 && final(self)@ == #[trigger] crate::query::all_recalled(
                        old(self)@,
                        hits,
                        now,
                    )
            }),
    {
        let now: i64 = now_unix();
        self.query_memory_at(params, embedding, now)
    }

    /// Shows the trees of a topic.
    pub fn explore_memory(
        &mut self,
        params: &ExploreMemoryParams,
        embedding: Option<&Vec<i32>>,
    ) -> (r: Reply<Vec<TreeResponse>>)
        requires
            old(self).wf(),
        ensures
            final(self).wf(),
            ({
                let hits = crate::query::query_hits(
                    old(self)@,
                    params.topic@,
                    crate::storage::numbers_view(embedding),
                    0,
                    3,
                );
                &&& exists|now: i64|
                    now >= 0 && final(self)@ == #[trigger] crate::query::all_recalled(
                        old(self)@,
                        hits,
                        now,
                    )
                &&& match r {
                    Reply::Message(m) => hits.len() == 0 && m@
                        == "No knowledge trees found for topic '"@ + params.topic@ + "'."@,
                    Reply::Data(d) => hits.len() > 0 && tells_of_forest(
                        d@,
                        crate::query::trees_found(final(self)@, hits, params.max_depth as nat),
                    ),
                }
            }),
    {
        let trees = self.db.explore(params.topic.as_str(), embedding, params.max_depth);
        let ghost all = crate::fragment::forest_view(trees@);
        proof {
            lemma_forest_len(trees@);
        }
        if trees.len() == 0 {
            return Reply::Message(
                concat3("No knowledge trees found for topic '", params.topic.as_str(), "'."),
            );
        }
        let mut out: Vec<TreeResponse> = Vec::new();
        let mut i: usize = 0;
        while i < trees.len()
            invariant
                i <= trees.len(),
                all == crate::fragment::forest_view(trees@),
                all.len() == trees.len(),
                out.len() == i,
                tells_of_forest(out@, all.take(i as int)),
            decreases trees.len() - i,
        {
            let t = TreeResponse::from_tree(&trees[i]);
            proof {
                lemma_forest_at(trees@, i as int);
                assert(out@.push(t).drop_last() == out@);
                assert(all.take(i + 1).drop_last() == all.take(i as int));
                assert(all.take(i + 1).last() == all[i as int]);
            }
            out.push(t);
            i = i + 1;
        }
        assert(all.take(i as int) == all);
        Reply::Data(out)
    }

    /// Goes on from a fragment to its children, its parent or its associations.
    pub fn traverse_memory(&self, params: &TraverseMemoryParams) -> (r: Reply<Vec<FragmentResponse>>)
        requires
            self.wf(),
        ensures
            match crate::fragment::uuid_parsed(params.fragment_id@) {
                Some(v) => match in_direction(self@, FragmentId(v), params.direction@) {
                    Some(fs) => if fs.len() == 0 {
                        r matches Reply::Message(m) && m@ == "No "@ + params.direction@
                            + " found for fragment "@ + params.fragment_id@ + "."@
                    } else {
                        r matches Reply::Data(d) && response_views(d@) == fs.map_values(
                            plain_response(),
                        )
                    },
                    None => r matches Reply::Message(m) && m@ == "Invalid direction '"@
                        + params.direction@ + "'. Use: children, parent, associations"@,
                },
                None => r matches Reply::Message(m) && m@ == "Invalid fragment ID: "@
                    + params.fragment_id@,
            },
    {
        let id = match FragmentId::parse(params.fragment_id.as_str()) {
            Ok(id) => id,
            Err(_) => {
                let mut s: String = "Invalid fragment ID: ".to_owned();
                s.append(params.fragment_id.as_str());
                return Reply::Message(s);
            },
        };
        proof {
            reveal_strlit("children");
            reveal_strlit("parent");
            reveal_strlit("associations");
        }
        let direction = params.direction.as_str();
        let fragments: Vec<Fragment> = if same(direction, "children") {
            self.db.children(id)
        } else if same(direction, "parent") {
            let mut up: Vec<Fragment> = Vec::new();
            if let Some(p) = self.db.parent(id) {
                up.push(p);
                assert(crate::fragment::fragment_views(up@) == seq![p@]);
            } else {
                assert(crate::fragment::fragment_views(up@) == Seq::<FragmentView>::empty());
            }
            up
        } else if same(direction, "associations") {
            self.db.associations(id)
        } else {
            return Reply::Message(
                concat3(
                    "Invalid direction '",
                    direction,
                    "'. Use: children, parent, associations",
                ),
            );
        };
        assert(crate::fragment::fragment_views(fragments@).len() == fragments.len());
        if fragments.len() == 0 {
            let mut s: String = "No ".to_owned();
            s.append(direction);
            s.append(" found for fragment ");
            s.append(params.fragment_id.as_str());
            s.append(".");
            return Reply::Message(s);
        }
        Reply::Data(to_responses(&fragments))
    }

    /// Lists all topics, the most relevant first.
    pub fn list_topics(&self, _params: &ListTopicsParams) -> (r: Reply<Vec<TopicResponse>>)
        requires
            self.wf(),
        ensures
            ({
                let roots = crate::query::roots_of(self@);
                match r {
                    Reply::Message(m) => roots.len() == 0 && m@ == "No topics in memory yet."@,
                    Reply::Data(d) => {
                        &&& roots.len() > 0
                        &&& d.len() == roots.len()
                        &&& forall|i: int|
                            0 <= i < d.len() ==> is_topic(self@, roots[i], #[trigger] d@[i])
                    },
                }
            }),
    {
        let roots = self.db.list_topics();
        let ghost fs = crate::fragment::fragment_views(roots@);
        assert(fs.len() == roots.len());
        if roots.len() == 0 {
            return Reply::Message("No topics in memory yet.".to_owned());
        }
        let mut out: Vec<TopicResponse> = Vec::new();
        let mut i: usize = 0;
        while i < roots.len()
            invariant
                self.wf(),
                i <= roots.len(),
                fs == crate::fragment::fragment_views(roots@),
                out.len() == i,
                forall|k: int| 0 <= k < i ==> is_topic(self@, fs[k], #[trigger] out@[k]),
            decreases roots.len() - i,
        {
            let children = self.db.children(roots[i].id);
            assert(fs[i as int] == roots@[i as int]@);
            assert(crate::fragment::fragment_views(children@).len() == children.len());
            out.push(
                TopicResponse {
                    id: roots[i].id.as_str(),
                    summary: roots[i].summary.clone(),
                    content: roots[i].content.clone(),
                    child_count: children.len(),
                },
            );
            i = i + 1;
        }
        Reply::Data(out)
    }
}

// ---- laws ----

/// What was stored is read back: reading the identifier of a receipt gives the
/// content and the depth that were stored.
pub proof fn law_stored_is_read_back(
    g: StorageView,
    params: StoreMemoryParams,
    embedding: Option<Seq<i32>>,
    id: FragmentId,
    now: i64,
    stamp: Stamp,
    receipt: Receipt,
    after: StorageView,
    later: i64,
    answer: Reply<ReadResponse>,
    last: StorageView,
)
    requires
        crate::storage::is_sound(g),
        store_answered(g, params, embedding, id, now, stamp, Reply::Data(receipt), after),
        answers_read(after, receipt.id@, later, answer, last),
    ensures
        answer matches Reply::Data(d) && d@.id == receipt.id@ && d@.content == params.content@
            && d@.depth == params.depth,
{
    let f = stored_fragment(params, embedding, id, now);
    let explicit = match crate::fragment::text_view(params.parent_id) {
        Some(p) => match crate::fragment::uuid_parsed(p) {
            Some(v) => Some(FragmentId(v)),
            None => None,
        },
        None => None,
    };
    let parent = store_parent(g, explicit, params.depth, embedding);
    crate::changes::law_insert_then_get(g, f, parent, stamp, id);
}

/// What was stored is found by a query for a text that stands in it, unless the
/// query finds as many others as were asked for that score no less.
pub proof fn law_stored_is_found(
    g: StorageView,
    params: StoreMemoryParams,
    embedding: Option<Seq<i32>>,
    id: FragmentId,
    now: i64,
    stamp: Stamp,
    receipt: Receipt,
    after: StorageView,
    topic: Seq<char>,
    limit: int,
)
    requires
        limit >= 0,
        store_answered(g, params, embedding, id, now, stamp, Reply::Data(receipt), after),
        crate::text::contains(
            crate::text::lowercase(params.content@),
            crate::text::lowercase(topic),
        ),
    ensures
        ({
            let hits = crate::query::query_hits(after, topic, None, params.depth, limit);
            let f = stored_fragment(params, embedding, id, now);
            let s = crate::query::scored_by_text(topic)(f);
            hits.contains(s) || (hits.len() == limit && forall|j: int|
                0 <= j < hits.len() ==> (#[trigger] hits[j]).score >= s.score)
        }),
{
    let f = stored_fragment(params, embedding, id, now);
    assert(after.fragments == g.fragments.push(f));
    assert(after.fragments[g.fragments.len() as int] == f);
    assert(crate::query::found_by_text(topic, Some(params.depth))(f));
    crate::query::law_query_misses_nothing(after, topic, None, params.depth, limit, f);
}

/// New content is read back: reading a fragment after an update gives the
/// content of the update.
pub proof fn law_updated_is_read_back(
    g: StorageView,
    params: UpdateMemoryParams,
    embedding: Option<Seq<i32>>,
    id: FragmentId,
    now: i64,
    r: Reply<Receipt>,
    after: StorageView,
    later: i64,
    answer: Reply<ReadResponse>,
    last: StorageView,
)
    requires
        crate::storage::is_sound(g),
        crate::fragment::uuid_parsed(params.fragment_id@) == Some(id.0),
        crate::storage::has_fragment(g.fragments, id),
        update_answered(g, params, embedding, now, r, after),
        answers_read(after, params.fragment_id@, later, answer, last),
    ensures
        answer matches Reply::Data(d) && d@.content == params.content@,
{
    let change = crate::storage::rewritten(params.content@, summary_of(g, id), embedding, now);
    let us = after.fragments;
    let k = choose|k: int| 0 <= k < g.fragments.len() && (#[trigger] g.fragments[k]).id == id;
    assert(us[k] == change(g.fragments[k]));
    assert(crate::storage::unique_fragments(us)) by {
        assert forall|a: int, b: int| 0 <= a < b < us.len() implies (#[trigger] us[a]).id != (
        #[trigger] us[b]).id by {
            assert(g.fragments[a].id != g.fragments[b].id);
        }
    }
    crate::storage::lemma_fragment_at(us, k);
}

/// What was deleted is no longer there to be read.
pub proof fn law_deleted_is_not_found(
    g: StorageView,
    id_text: Seq<char>,
    receipt: Receipt,
    after: StorageView,
    later: i64,
    answer: Reply<ReadResponse>,
    last: StorageView,
)
    requires
        crate::storage::is_sound(g),
        delete_answered(g, id_text, Reply::Data(receipt), after),
        answers_read(after, id_text, later, answer, last),
    ensures
        answer matches Reply::Message(m) && m@ == "Fragment "@ + id_text + " not found."@,
        last == after,
{
    let id = FragmentId(crate::fragment::uuid_parsed(id_text)->0);
    crate::changes::law_pruned_is_gone(g, id);
}

/// A search below a fragment finds descendants of it that have not faded out of
/// sight, on every level, and leaves out none that scores more than what it
/// returns.
pub proof fn law_search_below(
    g: StorageView,
    top: FragmentId,
    query: Seq<char>,
    embedding: Option<Seq<i32>>,
    limit: int,
)
    requires
        limit >= 0,
    ensures
        ({
            let below = crate::descent::descendants_of(g, top);
            let all = scored_among(below, query, embedding);
            let found = found_among(below, query, embedding, limit);
            &&& found.len() <= limit
            &&& forall|i: int|
                0 <= i < found.len() ==> {
                    let f = (#[trigger] found[i]).fragment;
                    &&& g.fragments.contains(f)
                    &&& crate::descent::is_below(g, top, f.id)
                    &&& f.relevance_score > MIN_RELEVANCE_THRESHOLD
                }
            &&& forall|k: int|
                0 <= k < all.len() ==> found.contains(#[trigger] all[k]) || (found.len() == limit
                    && forall|j: int|
                    0 <= j < found.len() ==> (#[trigger] found[j]).score >= all[k].score)
            &&& forall|f: FragmentView| #[trigger]
                g.fragments.contains(f) && crate::descent::descends(g, top)(f) && (match embedding {
                    Some(_) => embedding_in_sight()(f),
                    None => text_in_sight(query)(f),
                }) ==> exists|k: int| 0 <= k < all.len() && (#[trigger] all[k]).fragment == f
        }),
{
    let goes_down = crate::descent::descends(g, top);
    let below = crate::descent::descendants_of(g, top);
    let keep = match embedding {
        Some(_) => embedding_in_sight(),
        None => text_in_sight(query),
    };
    let kept = below.filter(keep);
    let all = scored_among(below, query, embedding);
    let found = found_among(below, query, embedding, limit);
    crate::lists::lemma_filter_members(g.fragments, goes_down);
    crate::lists::lemma_filter_members(below, keep);
    crate::query::law_best(all, limit);
    assert forall|i: int| 0 <= i < found.len() implies {
        let f = (#[trigger] found[i]).fragment;
        &&& g.fragments.contains(f)
        &&& crate::descent::is_below(g, top, f.id)
        &&& f.relevance_score > MIN_RELEVANCE_THRESHOLD
    } by {
        assert(all.contains(found[i]));
        let k = choose|k: int| 0 <= k < all.len() && all[k] == found[i];
        assert(all[k].fragment == kept[k]);
        assert(keep(kept[k]));
        assert(below.contains(kept[k]));
        let m = choose|m: int| 0 <= m < below.len() && below[m] == kept[k];
        assert(goes_down(below[m]));
        assert(g.fragments.contains(below[m]));
    }
    assert forall|f: FragmentView| #[trigger]
        g.fragments.contains(f) && goes_down(f) && keep(f) implies exists|k: int|
        0 <= k < all.len() && (#[trigger] all[k]).fragment == f by {
        let i = choose|i: int| 0 <= i < g.fragments.len() && g.fragments[i] == f;
        assert(goes_down(g.fragments[i]));
        let m = choose|m: int| 0 <= m < below.len() && below[m] == f;
        assert(keep(below[m]));
        let k = choose|k: int| 0 <= k < kept.len() && kept[k] == f;
        assert(all[k].fragment == f);
    }
}

/// A search of the memory answers with all that it found, in its order, each with its
/// identifier, score and depth, and reinforces just that: a plain one the best roots, a
/// deep one what activation reaches. Where there is nothing it says so.
pub proof fn law_search_answers(
    g: StorageView,
    query: Seq<char>,
    limit: int,
    embedding: Option<Seq<i32>>,
    i: int,
)
    ensures
        ({
            let roots = crate::query::query_hits(g, query, embedding, 0, limit);
            let o = search_outcome(g, query, None, limit, false, embedding);
            &&& roots.len() == 0 ==> o.message == Some("No results for '"@ + query + "'."@)
                && o.hits.len() == 0 && o.recalled.len() == 0
            &&& roots.len() > 0 ==> o.message is None && o.recalled == roots && o.hits.len()
                == roots.len()
            &&& 0 <= i < roots.len() ==> o.hits[i] == (HitView {
                id: crate::fragment::uuid_text(roots[i].fragment.id.0),
                score: roots[i].score,
                depth: roots[i].fragment.depth,
            })
        }),
        ({
            let all = crate::deep::deep_hits(g, query, embedding, limit);
            let o = search_outcome(g, query, None, limit, true, embedding);
            &&& all.len() == 0 ==> o.message == Some("No results for '"@ + query + "'."@)
                && o.hits.len() == 0 && o.recalled.len() == 0
            &&& all.len() > 0 ==> o.message is None && o.recalled == all && o.hits.len()
                == all.len()
            &&& 0 <= i < all.len() ==> o.hits[i] == (HitView {
                id: crate::fragment::uuid_text(all[i].fragment.id.0),
                score: all[i].score,
                depth: all[i].fragment.depth,
            })
        }),
{
}

/// A search below a fragment answers with what it found among the descendants and
/// reinforces nothing; without descendants, or with an identifier that is none, it says
/// so.
pub proof fn law_search_below_answers(
    g: StorageView,
    query: Seq<char>,
    p: Seq<char>,
    limit: int,
    deep: bool,
    embedding: Option<Seq<i32>>,
    i: int,
)
    ensures
        ({
            let o = search_outcome(g, query, Some(p), limit, deep, embedding);
            &&& o.recalled.len() == 0
            &&& match crate::fragment::uuid_parsed(p) {
                Some(v) => {
                    let below = crate::descent::descendants_of(g, FragmentId(v));
                    let found = found_among(below, query, embedding, limit);
                    &&& below.len() == 0 ==> o.message == Some(
                        "No children found for this fragment."@,
                    )
                    &&& below.len() > 0 && found.len() > 0 ==> o.message is None && o.hits.len()
                        == found.len()
                    &&& below.len() > 0 && 0 <= i < found.len() ==> o.hits[i] == (HitView {
                        id: crate::fragment::uuid_text(found[i].fragment.id.0),
                        score: found[i].score,
                        depth: found[i].fragment.depth,
                    })
                },
                None => o.message == Some("Invalid parent ID: "@ + p) && o.hits.len() == 0,
            }
        }),
{
}

/// What a search among some fragments finds, and with which score: by embedding those that
/// have one, with the blend of similarity and relevance; by text those whose content holds
/// the query, upper and lower case alike, with their relevance. All of them have not faded
/// to 0.05 or below, and none is left out unless the list is as long as was asked for and
/// nothing in it scores less.
pub proof fn law_found_among(
    fs: Seq<FragmentView>,
    query: Seq<char>,
    embedding: Option<Seq<i32>>,
    limit: int,
    f: FragmentView,
)
    requires
        limit >= 0,
    ensures
        ({
            let found = found_among(fs, query, embedding, limit);
            let in_sight = f.relevance_score > 50_000_000 && match embedding {
                Some(_) => f.embedding.len() > 0,
                None => crate::text::contains(
                    crate::text::lowercase(f.content),
                    crate::text::lowercase(query),
                ),
            };
            let score = match embedding {
                Some(e) => crate::relevance::blended(
                    crate::embedding::similarity(e, f.embedding),
                    f.relevance_score as int,
                ),
                None => f.relevance_score,
            };
            &&& found.len() <= limit
            &&& forall|i: int|
                0 <= i < found.len() && (#[trigger] found[i]).fragment == f ==> found[i].score
                    == score && in_sight && fs.contains(f)
            &&& fs.contains(f) && in_sight ==> found.contains(ScoredView { fragment: f, score })
                || (found.len() == limit && forall|j: int|
                0 <= j < found.len() ==> (#[trigger] found[j]).score >= score)
            &&& forall|i: int, j: int|
                0 <= i < j < found.len() ==> (#[trigger] found[i]).score >= (
                #[trigger] found[j]).score
        }),
{
    let keep = match embedding {
        Some(_) => embedding_in_sight(),
        None => text_in_sight(query),
    };
    let to = match embedding {
        Some(e) => crate::query::scored_by_embedding(e),
        None => by_relevance(),
    };
    let kept = fs.filter(keep);
    let all = scored_among(fs, query, embedding);
    assert(all == kept.map_values(to));
    let found = found_among(fs, query, embedding, limit);
    crate::lists::lemma_filter_members(fs, keep);
    crate::query::law_best(all, limit);
    assert forall|i: int| 0 <= i < found.len() && (#[trigger] found[i]).fragment == f implies found[i]
        == to(f) && keep(f) && fs.contains(f) by {
        assert(all.contains(found[i]));
        let k = choose|k: int| 0 <= k < all.len() && all[k] == found[i];
        assert(all[k] == to(kept[k]));
        assert(keep(kept[k]) && fs.contains(kept[k]));
    }
    if fs.contains(f) && keep(f) {
        let i = choose|i: int| 0 <= i < fs.len() && fs[i] == f;
        assert(keep(fs[i]));
        let k = choose|k: int| 0 <= k < kept.len() && kept[k] == f;
        assert(all[k] == to(f));
    }
}

/// What reading a fragment tells: its text, depth and relevance as they were, its parent
/// if it has one, all its children in their order, and for each of its associative edges
/// the fragment at the other end with how it relates.
pub proof fn law_reading_tells_all(g: StorageView, f: FragmentView, e: EdgeView, p: FragmentView)
    ensures
        ({
            let more = StorageView { edges: g.edges.push(e), ..g };
            let told = surroundings(g, f);
            let then = surroundings(more, f);
            let children = crate::storage::children_of(g, f.id);
            let other = if e.source == f.id {
                e.target
            } else {
                e.source
            };
            &&& told.id == crate::fragment::uuid_text(f.id.0) && told.content == f.content
                && told.depth == f.depth && told.relevance == f.relevance_score
            &&& crate::storage::parent_of(g, f.id) is None ==> told.parent_id is None
            &&& crate::storage::parent_of(g, f.id) == Some(p) ==> told.parent_id == Some(
                crate::fragment::uuid_text(p.id.0),
            )
            &&& told.children.len() == children.len()
            &&& forall|i: int|
                0 <= i < children.len() ==> told.children[i] == crate::fragment::uuid_text(
                    (#[trigger] children[i]).id.0,
                )
            &&& g.edges.len() == 0 ==> told.associations.len() == 0
            &&& e.kind == EdgeKind::Associative && (e.source == f.id || e.target == f.id)
                ==> then.associations == told.associations.push(
                AssociationView {
                    id: crate::fragment::uuid_text(other.0),
                    relationship: e.content,
                },
            )
            &&& e.kind != EdgeKind::Associative || (e.source != f.id && e.target != f.id)
                ==> then.associations == told.associations
        }),
{
    let keep = associative_edge(f.id);
    let to = association_of(f.id);
    crate::lists::lemma_filter_push(g.edges, keep, e);
    if keep(e) {
        assert(g.edges.filter(keep).push(e).map_values(to) == g.edges.filter(keep).map_values(
            to,
        ).push(to(e)));
    }
    if g.edges.len() == 0 {
        crate::lists::lemma_filter_empty(g.edges, keep);
    }
}

/// The parent of new knowledge: the one that is named; otherwise none for a root, and for
/// anything deeper the most similar root, if it is more similar than 0.3.
pub proof fn law_parent_of_new_knowledge(
    g: StorageView,
    p: FragmentId,
    depth: u32,
    e: Seq<i32>,
    other: Option<Seq<i32>>,
)
    ensures
        store_parent(g, Some(p), depth, other) == Some(p),
        store_parent(g, None, 0, other) is None,
        store_parent(g, None, depth, None) is None,
        depth > 0 ==> match store_parent(g, None, depth, Some(e)) {
            Some(id) => exists|i: int|
                {
                    let f = #[trigger] g.fragments[i];
                    &&& 0 <= i < g.fragments.len()
                    &&& f.id == id && f.depth == 0 && f.superseded_by is None
                    &&& crate::embedding::similarity(e, f.embedding) > 300_000_000
                    &&& forall|j: int|
                        0 <= j < g.fragments.len() && crate::changes::is_candidate_root(
                            #[trigger] g.fragments[j],
                        ) ==> crate::embedding::similarity(e, g.fragments[j].embedding)
                            <= crate::embedding::similarity(e, f.embedding)
                },
            None => forall|j: int|
                0 <= j < g.fragments.len() && crate::changes::is_candidate_root(
                    #[trigger] g.fragments[j],
                ) ==> crate::embedding::similarity(e, g.fragments[j].embedding) <= 300_000_000,
        },
{
    crate::changes::law_close_root(g, e, PARENT_SIMILARITY);
    if depth > 0 {
        if let Some(id) = store_parent(g, None, depth, Some(e)) {
            let i = choose|i: int|
                {
                    let f = #[trigger] g.fragments[i];
                    &&& 0 <= i < g.fragments.len()
                    &&& f.id == id && crate::changes::is_candidate_root(f)
                    &&& crate::embedding::similarity(e, f.embedding) > PARENT_SIMILARITY
                    &&& forall|j: int|
                        0 <= j < g.fragments.len() && crate::changes::is_candidate_root(
                            #[trigger] g.fragments[j],
                        ) ==> crate::embedding::similarity(e, g.fragments[j].embedding)
                            <= crate::embedding::similarity(e, f.embedding)
                };
            assert(g.fragments[i].id == id);
        }
    }
}

/// New knowledge is stored as it was sent: its text, summary and depth, and its embedding
/// if it has one; active, fully relevant, and with the importance of 0.5.
pub proof fn law_knowledge_is_stored_as_sent(
    params: StoreMemoryParams,
    e: Seq<i32>,
    id: FragmentId,
    now: i64,
)
    ensures
        ({
            let f = stored_fragment(params, Some(e), id, now);
            &&& f.id == id && f.content == params.content@ && f.summary == params.summary@
                && f.depth == params.depth && f.embedding == e
            &&& f.superseded_by is None && f.created_at == now && f.access_count == 0
            &&& f.relevance_score == 1_000_000_000 && f.importance == 500_000_000
            &&& stored_fragment(params, None, id, now) == (FragmentView {
                embedding: Seq::empty(),
                ..f
            })
        }),
{
    crate::fragment::law_new_fragments(id, params.content@, params.depth, 500_000_000, now);
}

/// New content replaces the content alone: the summary stays, and so does the embedding
/// unless there is a new one, and all other fragments and the edges.
pub proof fn law_update_keeps_the_rest(
    g: StorageView,
    params: UpdateMemoryParams,
    embedding: Option<Seq<i32>>,
    now: i64,
    r: Reply<Receipt>,
    after: StorageView,
    k: int,
)
    requires
        crate::storage::unique_fragments(g.fragments),
        update_answered(g, params, embedding, now, r, after),
        0 <= k < g.fragments.len(),
    ensures
        after.fragments.len() == g.fragments.len(),
        after.edges == g.edges,
        ({
            let f = g.fragments[k];
            let named = crate::fragment::uuid_parsed(params.fragment_id@) == Some(f.id.0);
            &&& !named ==> after.fragments[k] == f
            &&& named ==> after.fragments[k] == (FragmentView {
                content: params.content@,
                embedding: match embedding {
                    Some(e) => e,
                    None => f.embedding,
                },
                last_accessed: now,
                ..f
            }) && r is Data
        }),
        crate::fragment::uuid_parsed(params.fragment_id@) is None ==> r is Message,
{
    crate::storage::lemma_fragment_at(g.fragments, k);
}

/// The directions to go on in: to the children, the parent or the associations of a
/// fragment, by their names, and in no other one.
pub proof fn law_directions(g: StorageView, id: FragmentId, direction: Seq<char>, p: FragmentView)
    ensures
        in_direction(g, id, "children"@) == Some(crate::storage::children_of(g, id)),
        in_direction(g, id, "associations"@) == Some(crate::storage::associations_of(g, id)),
        crate::storage::parent_of(g, id) == Some(p) ==> in_direction(g, id, "parent"@) == Some(
            seq![p],
        ),
        crate::storage::parent_of(g, id) is None ==> in_direction(g, id, "parent"@) == Some(
            Seq::<FragmentView>::empty(),
        ),
        direction != "children"@ && direction != "parent"@ && direction != "associations"@
            ==> in_direction(g, id, direction) is None,
{
    reveal_strlit("children");
    reveal_strlit("parent");
    reveal_strlit("associations");
    assert("children"@.len() == 8);
    assert("parent"@.len() == 6);
    assert("associations"@.len() == 12);
}

/// What an answer tells of a fragment, with its score where it was searched for.
pub proof fn law_responses_tell_all(f: FragmentView, score: i64)
    ensures
        ({
            let r = scored_response()(ScoredView { fragment: f, score });
            &&& r.id == crate::fragment::uuid_text(f.id.0) && r.content == f.content && r.summary
                == f.summary && r.depth == f.depth
            &&& r.score == Some(score)
            &&& plain_response()(f) == (ResponseView { score: None, ..r })
        }),
{
}

/// An answer to a search at a depth gives all hits in their order, or says that there are
/// none, with the topic and the depth.
pub proof fn law_query_answers(
    topic: Seq<char>,
    depth: u32,
    hits: Seq<ScoredView>,
    r: Reply<Vec<FragmentResponse>>,
    i: int,
)
    requires
        answers_query(topic, depth, hits, r),
    ensures
        hits.len() == 0 <==> r is Message,
        r matches Reply::Message(m) ==> m@ == "No memories found for topic '"@ + topic
            + "' at depth "@ + crate::text::decimal(depth as nat) + "."@,
        r matches Reply::Data(d) ==> d.len() == hits.len() && (0 <= i < hits.len() ==> d@[i]@.id
            == crate::fragment::uuid_text(hits[i].fragment.id.0) && d@[i]@.content
            == hits[i].fragment.content && d@[i]@.score == Some(hits[i].score)),
{
    if let Reply::Data(d) = r {
        assert(response_views(d@).len() == d@.len());
        if 0 <= i < hits.len() {
            assert(response_views(d@)[i] == scored_response()(hits[i]));
        }
    }
}

/// An answer that tells of a tree tells of every fragment in it: the one on top, and the
/// trees below it one by one.
pub proof fn law_trees_are_told_in_full(r: TreeResponse, t: TreeView, i: int)
    requires
        tells_of_tree(r, t),
    ensures
        r.id@ == crate::fragment::uuid_text(t.fragment.id.0),
        r.content@ == t.fragment.content,
        r.summary@ == t.fragment.summary,
        r.depth == t.fragment.depth,
        r.children@.len() == t.children.len(),
        0 <= i < t.children.len() ==> tells_of_tree(r.children@[i], t.children[i]),
{
    lemma_told_one_by_one(r.children@, t.children, i);
}

proof fn lemma_told_one_by_one(r: Seq<TreeResponse>, t: Seq<TreeView>, i: int)
    requires
        tells_of_forest(r, t),
    ensures
        r.len() == t.len(),
        0 <= i < t.len() ==> tells_of_tree(r[i], t[i]),
    decreases r.len(),
{
    if r.len() > 0 {
        lemma_told_one_by_one(r.drop_last(), t.drop_last(), i);
    }
}

/// What is told of roots and topics: their identifiers and texts, and how many children
/// they have.
pub proof fn law_roots_are_told(
    g: StorageView,
    f: FragmentView,
    hit: RootHit,
    topic: TopicResponse,
)
    ensures
        is_root_hit(g, f, hit) ==> hit.id@ == crate::fragment::uuid_text(f.id.0)
            && hit.children_count == crate::storage::children_of(g, f.id).len(),
        is_topic(g, f, topic) ==> topic.id@ == crate::fragment::uuid_text(f.id.0) && topic.content@
            == f.content && topic.summary@ == f.summary && topic.child_count
            == crate::storage::children_of(g, f.id).len(),
{
}

/// A fragment that is read is recalled by it, and nothing changes where there is none to
/// read; different refusals are told in different words.
pub proof fn law_reading_recalls(
    g: StorageView,
    id: FragmentId,
    id_text: Seq<char>,
    now: i64,
    r: Reply<ReadResponse>,
    after: StorageView,
    a: StorageError,
    b: StorageError,
)
    requires
        answers_read(g, id_text, now, r, after),
        crate::fragment::uuid_parsed(id_text) == Some(id.0),
    ensures
        crate::storage::has_fragment(g.fragments, id) <==> r is Data,
        crate::storage::has_fragment(g.fragments, id) ==> after == crate::query::recalled(
            g,
            id,
            now,
        ),
        !crate::storage::has_fragment(g.fragments, id) ==> after == g,
        refusal(a) == refusal(b) <==> a == b,
{
    reveal_strlit("identifier is taken");
    reveal_strlit("reference to a missing fragment");
    reveal_strlit("no identifier is left");
    assert("identifier is taken"@[0] == 'i');
    assert("reference to a missing fragment"@[0] == 'r');
    assert("no identifier is left"@[0] == 'n');
}

/// What a request to store comes to: the knowledge stands behind all that was there, with
/// an edge from its parent if it has one, and the receipt names it, its depth and its
/// parent; or it is refused in so many words.
pub proof fn law_stored_with_a_receipt(
    g: StorageView,
    params: StoreMemoryParams,
    embedding: Option<Seq<i32>>,
    id: FragmentId,
    now: i64,
    stamp: Stamp,
    r: Reply<Receipt>,
    after: StorageView,
)
    requires
        store_answered(g, params, embedding, id, now, stamp, r, after),
    ensures
        r matches Reply::Data(d) ==> {
            &&& d.status@ == "stored"@
            &&& d.id@ == crate::fragment::uuid_text(id.0) && d.depth == Some(params.depth)
            &&& after.fragments == g.fragments.push(stored_fragment(params, embedding, id, now))
            &&& d.parent_id is None ==> after.edges == g.edges
            &&& d.parent_id is Some ==> after.edges.len() == g.edges.len() + 1
                && after.edges.last().target == id && after.edges.last().kind
                == EdgeKind::Hierarchical && d.parent_id->0@ == crate::fragment::uuid_text(
                after.edges.last().source.0,
            )
            &&& params.parent_id matches Some(p) ==> d.parent_id is Some
                && crate::fragment::uuid_parsed(p@) == Some(after.edges.last().source.0)
        },
        params.parent_id matches Some(p) ==> crate::fragment::uuid_parsed(p@) is None ==> {
            &&& after == g
            &&& r matches Reply::Message(m) && m@ == "Invalid parent ID: "@ + p@
        },
        !crate::storage::has_fragment(g.fragments, id) && params.parent_id is None && params.depth
            == 0 ==> r is Data,
{
}

/// Knowledge that is stored with a summary goes below the parent that is named, and stands
/// alone where none is; the receipt names it, its summary and its depth.
pub proof fn law_stored_with_a_summary(
    g: StorageView,
    params: StoreMemoryParams,
    embedding: Option<Seq<i32>>,
    id: FragmentId,
    now: i64,
    stamp: Stamp,
    r: Reply<StoredMemory>,
    after: StorageView,
)
    requires
        store_memory_answered(g, params, embedding, id, now, stamp, r, after),
    ensures
        r matches Reply::Data(d) ==> {
            &&& d.status@ == "stored"@ && d.fragment_id@ == crate::fragment::uuid_text(id.0)
            &&& d.summary@ == params.summary@ && d.depth == params.depth
            &&& after.fragments == g.fragments.push(stored_fragment(params, embedding, id, now))
            &&& params.parent_id is None ==> after.edges == g.edges
            &&& params.parent_id matches Some(p) ==> after.edges.len() == g.edges.len() + 1
                && after.edges.last().target == id && after.edges.last().kind
                == EdgeKind::Hierarchical && crate::fragment::uuid_parsed(p@) == Some(
                after.edges.last().source.0,
            )
        },
        params.parent_id matches Some(p) ==> crate::fragment::uuid_parsed(p@) is None ==> {
            &&& after == g
            &&& r matches Reply::Message(m) && m@ == "Invalid parent ID: "@ + p@
        },
        !crate::storage::has_fragment(g.fragments, id) && params.parent_id is None ==> r is Data,
{
}

/// A request to delete is answered with a receipt for the identifier as it was sent, and
/// refused where it is none.
pub proof fn law_deleted_with_a_receipt(
    g: StorageView,
    id_text: Seq<char>,
    r: Reply<Receipt>,
    after: StorageView,
)
    requires
        delete_answered(g, id_text, r, after),
    ensures
        crate::fragment::uuid_parsed(id_text) is Some <==> r is Data,
        r matches Reply::Data(d) ==> d.status@ == "deleted"@ && d.id@ == id_text,
        r matches Reply::Message(m) ==> after == g && m@ == "Invalid fragment ID: "@ + id_text,
{
}

/// An answer to a search gives the message or the hits of what came of it, whichever there
/// is.
pub proof fn law_search_is_answered(r: Reply<Vec<SearchHit>>, o: SearchOutcome, i: int)
    requires
        answers_search(r, o),
    ensures
        o.message is Some <==> r is Message,
        r matches Reply::Message(m) ==> o.message == Some(m@),
        r matches Reply::Data(hits) ==> hits.len() == o.hits.len() && (0 <= i < o.hits.len()
            ==> hits@[i].id@ == o.hits[i].id && hits@[i].score == o.hits[i].score && hits@[i].depth
            == o.hits[i].depth),
{
    if let Reply::Data(hits) = r {
        assert(hit_views(hits@).len() == hits@.len());
        if 0 <= i < o.hits.len() {
            assert(hit_views(hits@)[i] == hits@[i]@);
        }
    }
}

} // verus!
