//! The knowledge graph: fragments, the edges between them, reading positions
//! in conversation logs, and conversation turns that wait to be digested.
//!
//! The graph keeps the integrity of its references: identifiers are unique,
//! both ends of an edge exist, and so does what supersedes a fragment. An
//! operation that would break this is refused. Lists come in the order of
//! insertion.

use vstd::prelude::*;

use crate::edge::{Edge, EdgeId, EdgeKind};
#[allow(unused_imports)]
use crate::edge::EdgeView;
use crate::fixed::{multiply, ONE};
use crate::fragment::{copy_numbers, now_unix, Fragment, FragmentId};
#[allow(unused_imports)]
use crate::fragment::FragmentView;
use crate::relevance::compute_relevance;
use crate::text::same;

verus! {

// ---- what the graph holds ----

/// A reading position in a conversation log.
#[derive(Debug)]
struct Watermark {
    file_path: String,
    byte_offset: i64,
    last_processed: i64,
}

/// A conversation turn that waits to be digested.
#[derive(Debug)]
struct Turn {
    id: i64,
    file_path: String,
    role: String,
    text: String,
    staged_at: i64,
}

/// What a waiting turn holds.
#[verifier::ext_equal]
pub struct TurnView {
    pub id: i64,
    pub file_path: Seq<char>,
    pub role: Seq<char>,
    pub text: Seq<char>,
    pub staged_at: i64,
}

/// The knowledge graph.
#[derive(Debug)]
pub struct Storage {
    fragments: Vec<Fragment>,
    edges: Vec<Edge>,
    watermarks: Vec<Watermark>,
    turns: Vec<Turn>,
    next_turn: i64,
}

/// What the graph holds.
#[verifier::ext_equal]
pub struct StorageView {
    pub fragments: Seq<FragmentView>,
    pub edges: Seq<EdgeView>,
    /// Byte offset and time of the last reading, by file path.
    pub watermarks: Map<Seq<char>, (i64, i64)>,
    pub turns: Seq<TurnView>,
    /// The identifier of the next turn.
    pub next_turn: i64,
}

spec fn turn_view(t: Turn) -> TurnView {
    TurnView {
        id: t.id,
        file_path: t.file_path@,
        role: t.role@,
        text: t.text@,
        staged_at: t.staged_at,
    }
}

spec fn turn_views(v: Seq<Turn>) -> Seq<TurnView> {
    Seq::new(v.len(), |i: int| turn_view(v[i]))
}

spec fn watermark_map(v: Seq<Watermark>) -> Map<Seq<char>, (i64, i64)>
    decreases v.len(),
{
    if v.len() == 0 {
        Map::empty()
    } else {
        watermark_map(v.drop_last()).insert(
            v.last().file_path@,
            (v.last().byte_offset, v.last().last_processed),
        )
    }
}

impl View for Storage {
    type V = StorageView;

    closed spec fn view(&self) -> StorageView {
        StorageView {
            fragments: crate::fragment::fragment_views(self.fragments@),
            edges: crate::edge::edge_views(self.edges@),
            watermarks: watermark_map(self.watermarks@),
            turns: turn_views(self.turns@),
            next_turn: self.next_turn,
        }
    }
}

/// Why an operation is refused.
#[derive(Debug, Clone, Copy, PartialEq, Eq, Structural)]
pub enum StorageError {
    /// The identifier is taken.
    DuplicateId,
    /// A fragment that is referred to does not exist, or one that is referred to
    /// would cease to exist.
    BrokenReference,
    /// There is no identifier left for a turn.
    Full,
}

// ---- fragments in the graph ----

/// A fragment with an identifier is in the list.
pub open spec fn has_fragment(fs: Seq<FragmentView>, id: FragmentId) -> bool {
    exists|i: int| 0 <= i < fs.len() && (#[trigger] fs[i]).id == id
}

/// The fragment with an identifier.
pub open spec fn fragment_of(fs: Seq<FragmentView>, id: FragmentId) -> Option<FragmentView> {
    if has_fragment(fs, id) {
        Some(fs[choose|i: int| 0 <= i < fs.len() && (#[trigger] fs[i]).id == id])
    } else {
        None
    }
}

/// A fragment that nothing supersedes.
pub open spec fn is_active(f: FragmentView) -> bool {
    f.superseded_by is None
}

/// An active fragment with an identifier is in the list.
pub open spec fn has_active(fs: Seq<FragmentView>, id: FragmentId) -> bool {
    fragment_of(fs, id) matches Some(f) && is_active(f)
}

/// The list with a change to the fragment with an identifier.
pub open spec fn updated(
    fs: Seq<FragmentView>,
    id: FragmentId,
    change: spec_fn(FragmentView) -> FragmentView,
) -> Seq<FragmentView> {
    Seq::new(
        fs.len(),
        |i: int|
            if fs[i].id == id {
                change(fs[i])
            } else {
                fs[i]
            },
    )
}

/// One access more, as far as it can be counted.
pub open spec fn one_more(n: u32) -> u32 {
    if n < u32::MAX {
        (n + 1) as u32
    } else {
        n
    }
}

/// An access that is only counted.
pub open spec fn touched(now: i64) -> spec_fn(FragmentView) -> FragmentView {
    |f: FragmentView|
        FragmentView { last_accessed: now, access_count: one_more(f.access_count), ..f }
}

/// An access that reinforces: it is counted, and sets the relevance.
pub open spec fn reinforced(now: i64, relevance: i64) -> spec_fn(FragmentView) -> FragmentView {
    |f: FragmentView|
        FragmentView {
            last_accessed: now,
            access_count: one_more(f.access_count),
            last_reinforced: now,
            relevance_score: relevance,
            ..f
        }
}

/// A relevance raised by a boost, up to one.
pub open spec fn boosted_relevance(relevance: i64, boost: i64) -> i64 {
    if relevance + boost > ONE {
        ONE
    } else {
        crate::fixed::saturate(relevance + boost)
    }
}

/// A boost to a fragment that is active. It does not count as an access.
pub open spec fn boosted(boost: i64, now: i64) -> spec_fn(FragmentView) -> FragmentView {
    |f: FragmentView|
        if is_active(f) {
            FragmentView {
                relevance_score: boosted_relevance(f.relevance_score, boost),
                last_accessed: now,
                ..f
            }
        } else {
            f
        }
}

/// The relevance of a fragment as of a time.
pub open spec fn relevance_at(f: FragmentView, now: i64) -> int {
    crate::relevance::relevance(
        f.importance as int,
        f.access_count as nat,
        f.decay_rate as int,
        f.last_reinforced as int,
        now as int,
    )
}

/// A fragment as the sleep cycle leaves it: if it is active, its relevance has
/// faded to what is left by now.
pub open spec fn faded(f: FragmentView, now: i64) -> FragmentView {
    if is_active(f) {
        FragmentView { relevance_score: relevance_at(f, now) as i64, ..f }
    } else {
        f
    }
}

/// New content and summary, and a new embedding if there is one.
pub open spec fn rewritten(
    content: Seq<char>,
    summary: Seq<char>,
    embedding: Option<Seq<i32>>,
    now: i64,
) -> spec_fn(FragmentView) -> FragmentView {
    |f: FragmentView|
        FragmentView {
            content,
            summary,
            embedding: match embedding {
                Some(e) => e,
                None => f.embedding,
            },
            last_accessed: now,
            ..f
        }
}

/// A fragment that another supersedes.
pub open spec fn superseded(new: FragmentId) -> spec_fn(FragmentView) -> FragmentView {
    |f: FragmentView| FragmentView { superseded_by: Some(new), ..f }
}

/// Selects the fragments whose identifiers begin with a text.
pub open spec fn with_prefix(prefix: Seq<char>) -> spec_fn(FragmentView) -> bool {
    |f: FragmentView| crate::text::begins_with(crate::fragment::uuid_text(f.id.0), prefix)
}

/// An active fragment at a depth.
pub open spec fn at_depth(depth: u32) -> spec_fn(FragmentView) -> bool {
    |f: FragmentView| f.depth == depth && is_active(f)
}

/// An active fragment with an embedding, at a depth if one is given.
pub open spec fn embedded(depth: Option<u32>) -> spec_fn(FragmentView) -> bool {
    |f: FragmentView|
        f.embedding.len() > 0 && is_active(f) && match depth {
            Some(d) => f.depth == d,
            None => true,
        }
}

/// An active fragment below the roots, of low relevance, and older than an age.
pub open spec fn forgettable(max_relevance: i64, min_age_secs: i64, now: i64) -> spec_fn(
    FragmentView,
) -> bool {
    |f: FragmentView|
        is_active(f) && f.relevance_score < max_relevance && f.created_at < now - min_age_secs
            && f.depth > 0
}

/// All but the fragment with an identifier.
pub open spec fn other_than(id: FragmentId) -> spec_fn(FragmentView) -> bool {
    |f: FragmentView| f.id != id
}

// ---- edges in the graph ----

/// An edge with an identifier is in the list.
pub open spec fn has_edge(es: Seq<EdgeView>, id: EdgeId) -> bool {
    exists|i: int| 0 <= i < es.len() && (#[trigger] es[i]).id == id
}

/// An edge from or to a fragment.
pub open spec fn touches(id: FragmentId) -> spec_fn(EdgeView) -> bool {
    |e: EdgeView| e.source == id || e.target == id
}

/// An edge that does not touch a fragment.
pub open spec fn apart_from(id: FragmentId) -> spec_fn(EdgeView) -> bool {
    |e: EdgeView| e.source != id && e.target != id
}

/// An edge from a fragment to an active child.
pub open spec fn leads_to_child(fs: Seq<FragmentView>, id: FragmentId) -> spec_fn(EdgeView) -> bool {
    |e: EdgeView| e.source == id && e.kind == EdgeKind::Hierarchical && has_active(fs, e.target)
}

/// The fragment that an edge leads to.
pub open spec fn target_of(fs: Seq<FragmentView>) -> spec_fn(EdgeView) -> FragmentView {
    |e: EdgeView| fragment_of(fs, e.target)->0
}

/// The active children of a fragment, one for each edge that leads to one.
pub open spec fn children_of(g: StorageView, id: FragmentId) -> Seq<FragmentView> {
    g.edges.filter(leads_to_child(g.fragments, id)).map_values(target_of(g.fragments))
}

/// An edge from a parent to a fragment.
pub open spec fn leads_from_parent(id: FragmentId) -> spec_fn(EdgeView) -> bool {
    |e: EdgeView| e.target == id && e.kind == EdgeKind::Hierarchical
}

/// The parent of a fragment: the one with the oldest edge to it.
pub open spec fn parent_of(g: StorageView, id: FragmentId) -> Option<FragmentView> {
    let up = g.edges.filter(leads_from_parent(id));
    if up.len() > 0 {
        fragment_of(g.fragments, up[0].source)
    } else {
        None
    }
}

/// The end of an edge that is not the given fragment.
pub open spec fn other_end(e: EdgeView, id: FragmentId) -> FragmentId {
    if e.source == id {
        e.target
    } else {
        e.source
    }
}

/// An associative edge between a fragment and another one that is active.
pub open spec fn associates(fs: Seq<FragmentView>, id: FragmentId) -> spec_fn(EdgeView) -> bool {
    |e: EdgeView|
        (e.source == id || e.target == id) && e.kind == EdgeKind::Associative && other_end(e, id)
            != id && has_active(fs, other_end(e, id))
}

/// The fragment at the end of an edge that is not the given fragment.
pub open spec fn other_of(fs: Seq<FragmentView>, id: FragmentId) -> spec_fn(EdgeView) -> FragmentView {
    |e: EdgeView| fragment_of(fs, other_end(e, id))->0
}

/// The active fragments that associative edges connect a fragment with.
pub open spec fn associations_of(g: StorageView, id: FragmentId) -> Seq<FragmentView> {
    g.edges.filter(associates(g.fragments, id)).map_values(other_of(g.fragments, id))
}

/// An edge of a kind.
pub open spec fn of_kind(kind: EdgeKind) -> spec_fn(EdgeView) -> bool {
    |e: EdgeView| e.kind == kind
}

/// An edge that is not both of a kind and lighter than a weight.
pub open spec fn not_weak(kind: EdgeKind, min_weight: i64) -> spec_fn(EdgeView) -> bool {
    |e: EdgeView| !(e.kind == kind && e.weight < min_weight)
}

/// An edge other than those of a kind from one fragment to another.
pub open spec fn not_between(source: FragmentId, target: FragmentId, kind: EdgeKind) -> spec_fn(
    EdgeView,
) -> bool {
    |e: EdgeView| !(e.source == source && e.target == target && e.kind == kind)
}

/// The edges with the weights of one kind multiplied by a factor.
pub open spec fn decayed(es: Seq<EdgeView>, kind: EdgeKind, factor: i64) -> Seq<EdgeView> {
    Seq::new(
        es.len(),
        |i: int|
            if es[i].kind == kind {
                EdgeView {
                    weight: crate::fixed::product(es[i].weight as int, factor as int),
                    ..es[i]
                }
            } else {
                es[i]
            },
    )
}

/// The edges with a new weight for one of them.
pub open spec fn reweighted(es: Seq<EdgeView>, id: EdgeId, weight: i64) -> Seq<EdgeView> {
    Seq::new(
        es.len(),
        |i: int|
            if es[i].id == id {
                EdgeView { weight, ..es[i] }
            } else {
                es[i]
            },
    )
}

// ---- integrity ----

/// No two fragments have the same identifier.
pub open spec fn unique_fragments(fs: Seq<FragmentView>) -> bool {
    forall|i: int, j: int|
        0 <= i < j < fs.len() ==> (#[trigger] fs[i]).id != (#[trigger] fs[j]).id
}

/// No two edges have the same identifier.
pub open spec fn unique_edges(es: Seq<EdgeView>) -> bool {
    forall|i: int, j: int|
        0 <= i < j < es.len() ==> (#[trigger] es[i]).id != (#[trigger] es[j]).id
}

/// Both ends of each edge exist.
pub open spec fn anchored(fs: Seq<FragmentView>, es: Seq<EdgeView>) -> bool {
    forall|i: int|
        0 <= i < es.len() ==> has_fragment(fs, (#[trigger] es[i]).source) && has_fragment(
            fs,
            es[i].target,
        )
}

/// What supersedes a fragment exists.
pub open spec fn succession_exists(fs: Seq<FragmentView>) -> bool {
    forall|i: int|
        0 <= i < fs.len() ==> ((#[trigger] fs[i]).superseded_by matches Some(s) ==> has_fragment(
            fs,
            s,
        ))
}

/// Turns have increasing identifiers, all below the next one.
pub open spec fn turns_in_order(turns: Seq<TurnView>, next: i64) -> bool {
    &&& forall|i: int, j: int|
        0 <= i < j < turns.len() ==> (#[trigger] turns[i]).id < (#[trigger] turns[j]).id
    &&& forall|i: int| 0 <= i < turns.len() ==> (#[trigger] turns[i]).id < next
}

/// The graph keeps the integrity of its references.
pub open spec fn is_sound(g: StorageView) -> bool {
    &&& unique_fragments(g.fragments)
    &&& unique_edges(g.edges)
    &&& anchored(g.fragments, g.edges)
    &&& succession_exists(g.fragments)
    &&& turns_in_order(g.turns, g.next_turn)
}

/// What is kept of fragments with identifiers of their own has such identifiers too.
pub proof fn lemma_filtered_unique(fs: Seq<FragmentView>, keep: spec_fn(FragmentView) -> bool)
    requires
        unique_fragments(fs),
    ensures
        unique_fragments(fs.filter(keep)),
    decreases fs.len(),
{
    reveal(Seq::filter);
    if fs.len() > 0 {
        let front = fs.drop_last();
        assert forall|i: int, j: int| 0 <= i < j < front.len() implies (#[trigger] front[i]).id != (
        #[trigger] front[j]).id by {
            assert(fs[i].id != fs[j].id);
        }
        lemma_filtered_unique(front, keep);
        let kept = front.filter(keep);
        let all = fs.filter(keep);
        crate::lists::lemma_filter_members(front, keep);
        assert forall|i: int, j: int| 0 <= i < j < all.len() implies (#[trigger] all[i]).id != (
        #[trigger] all[j]).id by {
            if j < kept.len() {
                assert(kept[i].id != kept[j].id);
            } else {
                assert(front.contains(kept[i]));
                let k = choose|k: int| 0 <= k < front.len() && front[k] == kept[i];
                assert(fs[k].id != fs[fs.len() - 1].id);
            }
        }
    }
}

/// Looking up the fragment at a place by its identifier finds it.
pub proof fn lemma_fragment_at(fs: Seq<FragmentView>, i: int)
    requires
        unique_fragments(fs),
        0 <= i < fs.len(),
    ensures
        fragment_of(fs, fs[i].id) == Some(fs[i]),
        has_fragment(fs, fs[i].id),
{
    let k = choose|k: int| 0 <= k < fs.len() && (#[trigger] fs[k]).id == fs[i].id;
    assert(fs[i].id == fs[i].id);
    assert(has_fragment(fs, fs[i].id));
    if k < i {
        assert(fs[k].id != fs[i].id);
    }
    if i < k {
        assert(fs[i].id != fs[k].id);
    }
}

/// A change that keeps identifiers keeps which identifiers are there.
pub proof fn lemma_updated_has(
    fs: Seq<FragmentView>,
    id: FragmentId,
    change: spec_fn(FragmentView) -> FragmentView,
    x: FragmentId,
)
    requires
        forall|f: FragmentView| (#[trigger] change(f)).id == f.id,
    ensures
        has_fragment(updated(fs, id, change), x) <==> has_fragment(fs, x),
{
    let us = updated(fs, id, change);
    if has_fragment(fs, x) {
        let k = choose|k: int| 0 <= k < fs.len() && (#[trigger] fs[k]).id == x;
        assert(us[k].id == x);
    }
    if has_fragment(us, x) {
        let k = choose|k: int| 0 <= k < us.len() && (#[trigger] us[k]).id == x;
        assert(fs[k].id == x);
    }
}

/// A change to one fragment that keeps its identifier, and lets it be
/// superseded only by a fragment that exists, keeps the graph sound.
pub proof fn lemma_updated_sound(
    g: StorageView,
    id: FragmentId,
    change: spec_fn(FragmentView) -> FragmentView,
)
    requires
        is_sound(g),
        forall|f: FragmentView| (#[trigger] change(f)).id == f.id,
        forall|f: FragmentView|
            (#[trigger] change(f)).superseded_by == f.superseded_by || (change(
                f,
            ).superseded_by matches Some(s) ==> has_fragment(g.fragments, s)),
    ensures
        is_sound(StorageView { fragments: updated(g.fragments, id, change), ..g }),
{
    let fs = g.fragments;
    let us = updated(fs, id, change);
    assert forall|i: int, j: int| 0 <= i < j < us.len() implies (#[trigger] us[i]).id != (
    #[trigger] us[j]).id by {
        assert(fs[i].id != fs[j].id);
    }
    assert forall|i: int| 0 <= i < g.edges.len() implies has_fragment(
        us,
        (#[trigger] g.edges[i]).source,
    ) && has_fragment(us, g.edges[i].target) by {
        lemma_updated_has(fs, id, change, g.edges[i].source);
        lemma_updated_has(fs, id, change, g.edges[i].target);
    }
    assert forall|i: int| 0 <= i < us.len() implies ((
    #[trigger] us[i]).superseded_by matches Some(s) ==> has_fragment(us, s)) by {
        if let Some(s) = us[i].superseded_by {
            lemma_updated_has(fs, id, change, s);
            let _ = fs[i].superseded_by;
        }
    }
}

/// Fewer edges leave the graph sound.
pub proof fn lemma_fewer_edges_sound(g: StorageView, keep: spec_fn(EdgeView) -> bool)
    requires
        is_sound(g),
    ensures
        is_sound(StorageView { edges: g.edges.filter(keep), ..g }),
{
    lemma_filter_unique_edges(g.edges, keep);
    let kept = g.edges.filter(keep);
    crate::lists::lemma_filter_members(g.edges, keep);
    assert forall|i: int| 0 <= i < kept.len() implies has_fragment(
        g.fragments,
        (#[trigger] kept[i]).source,
    ) && has_fragment(g.fragments, kept[i].target) by {
        assert(g.edges.contains(kept[i]));
        let k = choose|k: int| 0 <= k < g.edges.len() && g.edges[k] == kept[i];
        assert(has_fragment(g.fragments, g.edges[k].source));
    }
}

proof fn lemma_filter_unique_edges(es: Seq<EdgeView>, keep: spec_fn(EdgeView) -> bool)
    requires
        unique_edges(es),
    ensures
        unique_edges(es.filter(keep)),
    decreases es.len(),
{
    reveal(Seq::filter);
    if es.len() > 0 {
        let front = es.drop_last();
        assert forall|i: int, j: int| 0 <= i < j < front.len() implies (#[trigger] front[i]).id
            != (#[trigger] front[j]).id by {
            assert(es[i].id != es[j].id);
        }
        lemma_filter_unique_edges(front, keep);
        crate::lists::lemma_filter_members(front, keep);
        let kept = es.filter(keep);
        assert forall|i: int, j: int| 0 <= i < j < kept.len() implies (#[trigger] kept[i]).id != (
        #[trigger] kept[j]).id by {
            let fk = front.filter(keep);
            if j < fk.len() {
                assert(fk[i].id != fk[j].id);
            } else {
                assert(front.contains(fk[i]));
                let k = choose|k: int| 0 <= k < front.len() && front[k] == fk[i];
                assert(es[k].id != es[es.len() - 1].id);
            }
        }
    }
}

impl Storage {
    /// The graph keeps the integrity of its references.
    pub open spec fn wf(&self) -> bool {
        is_sound(self@)
    }

    /// An empty graph.
    pub fn open_memory() -> (r: Result<Self, StorageError>)
        ensures
            match r {
                Ok(s) => s.wf() && s@ == (StorageView {
                    fragments: Seq::empty(),
                    edges: Seq::empty(),
                    watermarks: Map::empty(),
                    turns: Seq::empty(),
                    next_turn: 1,
                }),
                Err(_) => false,
            },
    {
        let s = Storage {
            fragments: Vec::new(),
            edges: Vec::new(),
            watermarks: Vec::new(),
            turns: Vec::new(),
            next_turn: 1,
        };
        assert(s@.fragments == Seq::<FragmentView>::empty());
        assert(s@.edges == Seq::<EdgeView>::empty());
        assert(s@.turns == Seq::<TurnView>::empty());
        Ok(s)
    }

    /// The place of the fragment with an identifier.
    fn position(&self, id: FragmentId) -> (r: Option<usize>)
        requires
            self.wf(),
        ensures
            match r {
                Some(i) => i < self.fragments.len() && self.fragments[i as int].id == id
                    && has_fragment(self@.fragments, id) && fragment_of(self@.fragments, id) == Some(
                    self.fragments[i as int]@,
                ),
                None => !has_fragment(self@.fragments, id) && fragment_of(
                    self@.fragments,
                    id,
                ) is None && forall|i: int|
                    0 <= i < self.fragments.len() ==> self.fragments[i].id != id,
            },
    {
        let mut i: usize = 0;
        while i < self.fragments.len()
            invariant
                self.wf(),
                i <= self.fragments.len(),
                forall|k: int| 0 <= k < i ==> self.fragments[k].id != id,
            decreases self.fragments.len() - i,
        {
            if self.fragments[i].id == id {
                proof {
                    lemma_fragment_at(self@.fragments, i as int);
                    assert(self@.fragments[i as int].id == id);
                }
                return Some(i);
            }
            i = i + 1;
        }
        proof {
            if has_fragment(self@.fragments, id) {
                let k = choose|k: int|
                    0 <= k < self@.fragments.len() && (#[trigger] self@.fragments[k]).id == id;
                assert(self.fragments[k].id == id);
            }
        }
        None
    }

    /// Tells whether there is a fragment with an identifier.
    pub fn contains_fragment(&self, id: FragmentId) -> (r: bool)
        requires
            self.wf(),
        ensures
            r == has_fragment(self@.fragments, id),
    {
        self.position(id).is_some()
    }

    /// The number of fragments, superseded ones among them.
    pub fn fragment_count(&self) -> (r: usize)
        ensures
            r == self@.fragments.len(),
    {
        self.fragments.len()
    }

    /// Adds a fragment.
    pub fn insert_fragment(&mut self, fragment: &Fragment) -> (r: Result<(), StorageError>)
        requires
            old(self).wf(),
        ensures
            final(self).wf(),
            r == insert_fragment_result(old(self)@, fragment@),
            r is Ok ==> final(self)@ == (StorageView {
                fragments: old(self)@.fragments.push(fragment@),
                ..old(self)@
            }),
            r is Err ==> final(self)@ == old(self)@,
    {
        if self.contains_fragment(fragment.id) {
            return Err(StorageError::DuplicateId);
        }
        if let Some(s) = fragment.superseded_by {
            if s != fragment.id && !self.contains_fragment(s) {
                return Err(StorageError::BrokenReference);
            }
        }
        let ghost before = self@;
        let f = fragment.clone();
        self.fragments.push(f);
        proof {
            assert(self@.fragments == before.fragments.push(fragment@));
            assert(self@ == (StorageView {
                fragments: before.fragments.push(fragment@),
                ..before
            }));
            lemma_inserted_sound(before, fragment@);
        }
        Ok(())
    }

    /// The fragment with an identifier.
    pub fn get_fragment(&self, id: FragmentId) -> (r: Option<Fragment>)
        requires
            self.wf(),
        ensures
            match r {
                Some(f) => fragment_of(self@.fragments, id) == Some(f@) && f.id == id,
                None => fragment_of(self@.fragments, id) is None,
            },
    {
        match self.position(id) {
            Some(i) => Some(self.fragments[i].clone()),
            None => None,
        }
    }
}

/// What adding a fragment comes to.
pub open spec fn insert_fragment_result(g: StorageView, f: FragmentView) -> Result<
    (),
    StorageError,
> {
    if has_fragment(g.fragments, f.id) {
        Err(StorageError::DuplicateId)
    } else if f.superseded_by matches Some(s) && s != f.id && !has_fragment(g.fragments, s) {
        Err(StorageError::BrokenReference)
    } else {
        Ok(())
    }
}

/// What is in a list is in a longer one.
proof fn lemma_pushed_has(fs: Seq<FragmentView>, f: FragmentView, x: FragmentId)
    ensures
        has_fragment(fs.push(f), x) <==> has_fragment(fs, x) || f.id == x,
{
    if has_fragment(fs, x) {
        let k = choose|k: int| 0 <= k < fs.len() && (#[trigger] fs[k]).id == x;
        assert(fs.push(f)[k].id == x);
    }
    assert(fs.push(f)[fs.len() as int] == f);
    if has_fragment(fs.push(f), x) && f.id != x {
        let k = choose|k: int| 0 <= k < fs.len() + 1 && (#[trigger] fs.push(f)[k]).id == x;
        assert(fs[k].id == x);
    }
}

proof fn lemma_inserted_sound(g: StorageView, f: FragmentView)
    requires
        is_sound(g),
        insert_fragment_result(g, f) is Ok,
    ensures
        is_sound(StorageView { fragments: g.fragments.push(f), ..g }),
{
    let fs = g.fragments;
    let ps = fs.push(f);
    assert forall|i: int, j: int| 0 <= i < j < ps.len() implies (#[trigger] ps[i]).id != (
    #[trigger] ps[j]).id by {
        if j == fs.len() {
            assert(fs[i].id != f.id);
        } else {
            assert(fs[i].id != fs[j].id);
        }
    }
    assert forall|i: int| 0 <= i < g.edges.len() implies has_fragment(
        ps,
        (#[trigger] g.edges[i]).source,
    ) && has_fragment(ps, g.edges[i].target) by {
        lemma_pushed_has(fs, f, g.edges[i].source);
        lemma_pushed_has(fs, f, g.edges[i].target);
    }
    assert forall|i: int| 0 <= i < ps.len() implies ((
    #[trigger] ps[i]).superseded_by matches Some(s) ==> has_fragment(ps, s)) by {
        if let Some(s) = ps[i].superseded_by {
            lemma_pushed_has(fs, f, s);
            if i < fs.len() {
                let _ = fs[i].superseded_by;
                assert(fs[i] == ps[i]);
            }
        }
    }
}

/// A lemma for changes in place: the list after the fragment at one place was
/// changed is the list with that change.
proof fn lemma_changed_at(
    before: Seq<FragmentView>,
    after: Seq<FragmentView>,
    at: int,
    change: spec_fn(FragmentView) -> FragmentView,
)
    requires
        unique_fragments(before),
        0 <= at < before.len(),
        after.len() == before.len(),
        after[at] == change(before[at]),
        forall|i: int| 0 <= i < before.len() && i != at ==> #[trigger] after[i] == before[i],
    ensures
        after == updated(before, before[at].id, change),
{
    let us = updated(before, before[at].id, change);
    assert forall|i: int| 0 <= i < before.len() implies #[trigger] after[i] == us[i] by {
        if i < at {
            assert(before[i].id != before[at].id);
        }
        if i > at {
            assert(before[at].id != before[i].id);
        }
    }
    assert(after =~= us);
}

/// Where there is no fragment with an identifier, there is nothing to change.
proof fn lemma_nothing_to_change(
    fs: Seq<FragmentView>,
    id: FragmentId,
    change: spec_fn(FragmentView) -> FragmentView,
)
    requires
        !has_fragment(fs, id),
    ensures
        updated(fs, id, change) == fs,
{
    assert forall|i: int| 0 <= i < fs.len() implies #[trigger] updated(fs, id, change)[i]
        == fs[i] by {
        assert(fs[i].id != id);
    }
    assert(updated(fs, id, change) =~= fs);
}

impl Storage {
    /// Counts an access to a fragment, as of a given time.
    pub fn touch_fragment_at(&mut self, id: FragmentId, now: i64)
        requires
            old(self).wf(),
        ensures
            final(self).wf(),
            final(self)@ == (StorageView {
                fragments: updated(old(self)@.fragments, id, touched(now)),
                ..old(self)@
            }),
    {
        let ghost before = self@;
        match self.position(id) {
            Some(i) => {
                let n: u32 = self.fragments[i].access_count;
                self.fragments[i].last_accessed = now;
                if n < u32::MAX {
                    self.fragments[i].access_count = n + 1;
                }
                proof {
                    lemma_changed_at(before.fragments, self@.fragments, i as int, touched(now));
                }
            },
            None => {
                proof {
                    lemma_nothing_to_change(before.fragments, id, touched(now));
                }
            },
        }
        proof {
            lemma_updated_sound(before, id, touched(now));
            assert(self@ == (StorageView {
                fragments: updated(before.fragments, id, touched(now)),
                ..before
            }));
        }
    }

    /// Counts an access to a fragment.
    pub fn touch_fragment(&mut self, id: FragmentId)
        requires
            old(self).wf(),
        ensures
            final(self).wf(),
            exists|now: i64|
                now >= 0 && final(self)@ == (StorageView {
                    fragments: #[trigger] updated(old(self)@.fragments, id, touched(now)),
                    ..old(self)@
                }),
    {
        let now: i64 = now_unix();
        self.touch_fragment_at(id, now);
    }

    /// Reinforces a fragment on recall: counts the access and sets the relevance.
    pub fn reinforce_fragment(&mut self, id: FragmentId, now: i64, new_relevance: i64)
        requires
            old(self).wf(),
        ensures
            final(self).wf(),
            final(self)@ == (StorageView {
                fragments: updated(old(self)@.fragments, id, reinforced(now, new_relevance)),
                ..old(self)@
            }),
    {
        let ghost before = self@;
        let ghost change = reinforced(now, new_relevance);
        match self.position(id) {
            Some(i) => {
                let n: u32 = self.fragments[i].access_count;
                self.fragments[i].last_accessed = now;
                if n < u32::MAX {
                    self.fragments[i].access_count = n + 1;
                }
                self.fragments[i].last_reinforced = now;
                self.fragments[i].relevance_score = new_relevance;
                proof {
                    lemma_changed_at(before.fragments, self@.fragments, i as int, change);
                }
            },
            None => {
                proof {
                    lemma_nothing_to_change(before.fragments, id, change);
                }
            },
        }
        proof {
            lemma_updated_sound(before, id, change);
            assert(self@ == (StorageView {
                fragments: updated(before.fragments, id, change),
                ..before
            }));
        }
    }

    /// Boosts the relevance of an active fragment whose neighbour was accessed.
    /// This is no access, and does not reset the time of the last reinforcement.
    pub fn boost_relevance(&mut self, id: FragmentId, boost: i64, now: i64)
        requires
            old(self).wf(),
        ensures
            final(self).wf(),
            final(self)@ == (StorageView {
                fragments: updated(old(self)@.fragments, id, boosted(boost, now)),
                ..old(self)@
            }),
    {
        let ghost before = self@;
        let ghost change = boosted(boost, now);
        match self.position(id) {
            Some(i) => {
                if self.fragments[i].superseded_by.is_none() {
                    let sum: i128 = self.fragments[i].relevance_score as i128 + boost as i128;
                    let score: i64 = if sum > ONE as i128 {
                        ONE
                    } else {
                        crate::fixed::to_i64(sum)
                    };
                    self.fragments[i].relevance_score = score;
                    self.fragments[i].last_accessed = now;
                }
                proof {
                    lemma_changed_at(before.fragments, self@.fragments, i as int, change);
                }
            },
            None => {
                proof {
                    lemma_nothing_to_change(before.fragments, id, change);
                }
            },
        }
        proof {
            lemma_updated_sound(before, id, change);
            assert(self@ == (StorageView {
                fragments: updated(before.fragments, id, change),
                ..before
            }));
        }
    }

    /// Gives a fragment new content and a new summary, and a new embedding if
    /// there is one, as of a given time.
    pub fn update_fragment_content_at(
        &mut self,
        id: FragmentId,
        new_content: &str,
        new_summary: &str,
        new_embedding: Option<&Vec<i32>>,
        now: i64,
    )
        requires
            old(self).wf(),
        ensures
            final(self).wf(),
            final(self)@ == (StorageView {
                fragments: updated(
                    old(self)@.fragments,
                    id,
                    rewritten(new_content@, new_summary@, numbers_view(new_embedding), now),
                ),
                ..old(self)@
            }),
    {
        let ghost before = self@;
        let ghost change = rewritten(
            new_content@,
            new_summary@,
            numbers_view(new_embedding),
            now,
        );
        match self.position(id) {
            Some(i) => {
                self.fragments[i].content = new_content.to_owned();
                self.fragments[i].summary = new_summary.to_owned();
                if let Some(e) = new_embedding {
                    self.fragments[i].embedding = copy_numbers(e);
                }
                self.fragments[i].last_accessed = now;
                proof {
                    lemma_changed_at(before.fragments, self@.fragments, i as int, change);
                }
            },
            None => {
                proof {
                    lemma_nothing_to_change(before.fragments, id, change);
                }
            },
        }
        proof {
            lemma_updated_sound(before, id, change);
            assert(self@ == (StorageView {
                fragments: updated(before.fragments, id, change),
                ..before
            }));
        }
    }

    /// Gives a fragment new content and a new summary, and a new embedding if
    /// there is one.
    pub fn update_fragment_content(
        &mut self,
        id: FragmentId,
        new_content: &str,
        new_summary: &str,
        new_embedding: Option<&Vec<i32>>,
    )
        requires
            old(self).wf(),
        ensures
            final(self).wf(),
            exists|now: i64|
                now >= 0 && final(self)@ == (StorageView {
                    fragments: #[trigger] updated(
                        old(self)@.fragments,
                        id,
                        rewritten(new_content@, new_summary@, numbers_view(new_embedding), now),
                    ),
                    ..old(self)@
                }),
    {
        let now: i64 = now_unix();
        self.update_fragment_content_at(id, new_content, new_summary, new_embedding, now);
    }

    /// Marks a fragment as superseded by another. There is nothing to do where
    /// the old one does not exist.
    pub fn supersede_fragment(&mut self, old_id: FragmentId, new_id: FragmentId) -> (r: Result<
        (),
        StorageError,
    >)
        requires
            old(self).wf(),
        ensures
            final(self).wf(),
            r == supersede_result(old(self)@, old_id, new_id),
            r is Ok ==> final(self)@ == (StorageView {
                fragments: updated(old(self)@.fragments, old_id, superseded(new_id)),
                ..old(self)@
            }),
            r is Err ==> final(self)@ == old(self)@,
    {
        let ghost before = self@;
        let ghost change = superseded(new_id);
        match self.position(old_id) {
            Some(i) => {
                if !self.contains_fragment(new_id) {
                    return Err(StorageError::BrokenReference);
                }
                self.fragments[i].superseded_by = Some(new_id);
                proof {
                    lemma_changed_at(before.fragments, self@.fragments, i as int, change);
                    lemma_updated_sound(before, old_id, change);
                }
            },
            None => {
                proof {
                    lemma_nothing_to_change(before.fragments, old_id, change);
                }
            },
        }
        proof {
            assert(self@ == (StorageView {
                fragments: updated(before.fragments, old_id, change),
                ..before
            }));
        }
        Ok(())
    }

    /// The sleep cycle: recomputes the relevance of all active fragments, and
    /// tells how many there are.
    pub fn recompute_all_relevance(&mut self, now: i64) -> (r: usize)
        requires
            old(self).wf(),
        ensures
            final(self).wf(),
            final(self)@ == (StorageView {
                fragments: all_faded(old(self)@.fragments, now),
                ..old(self)@
            }),
            r == old(self)@.fragments.filter(active()).len(),
    {
        let ghost before = self@;
        let mut count: usize = 0;
        let mut i: usize = 0;
        proof {
            crate::lists::lemma_filter_none(before.fragments, active());
        }
        while i < self.fragments.len()
            invariant
                i <= self.fragments.len(),
                self@.fragments.len() == before.fragments.len(),
                self@ == (StorageView { fragments: self@.fragments, ..before }),
                forall|k: int|
                    0 <= k < i ==> #[trigger] self@.fragments[k] == faded(before.fragments[k], now),
                forall|k: int|
                    i <= k < self@.fragments.len() ==> #[trigger] self@.fragments[k]
                        == before.fragments[k],
                count == before.fragments.take(i as int).filter(active()).len(),
                count <= i,
            decreases self.fragments.len() - i,
        {
            proof {
                crate::lists::lemma_filter_next(before.fragments, active(), i as int);
                assert(self@.fragments[i as int] == self.fragments[i as int]@);
            }
            let ghost prior = self@;
            if self.fragments[i].superseded_by.is_none() {
                let score: i64 = compute_relevance(
                    self.fragments[i].importance,
                    self.fragments[i].access_count,
                    self.fragments[i].decay_rate,
                    self.fragments[i].last_reinforced,
                    now,
                );
                self.fragments[i].relevance_score = score;
                count = count + 1;
            }
            assert(self@.fragments[i as int] == faded(before.fragments[i as int], now));
            assert forall|k: int| 0 <= k < self@.fragments.len() && k != i implies #[trigger]
                self@.fragments[k] == prior.fragments[k] by {}
            i = i + 1;
        }
        proof {
            assert(before.fragments.take(i as int) == before.fragments);
            assert(self@.fragments == all_faded(before.fragments, now));
            lemma_faded_sound(before, now);
        }
        count
    }
}

/// An embedding that may be missing.
pub open spec fn numbers_view(v: Option<&Vec<i32>>) -> Option<Seq<i32>> {
    match v {
        Some(e) => Some(e@),
        None => None,
    }
}

/// What marking a fragment as superseded comes to.
pub open spec fn supersede_result(g: StorageView, old_id: FragmentId, new_id: FragmentId) -> Result<
    (),
    StorageError,
> {
    if has_fragment(g.fragments, old_id) && !has_fragment(g.fragments, new_id) {
        Err(StorageError::BrokenReference)
    } else {
        Ok(())
    }
}

/// A fragment that nothing supersedes.
pub open spec fn active() -> spec_fn(FragmentView) -> bool {
    |f: FragmentView| is_active(f)
}

/// The fragments as the sleep cycle leaves them.
pub open spec fn all_faded(fs: Seq<FragmentView>, now: i64) -> Seq<FragmentView> {
    Seq::new(fs.len(), |i: int| faded(fs[i], now))
}

proof fn lemma_faded_has(fs: Seq<FragmentView>, now: i64, x: FragmentId)
    ensures
        has_fragment(all_faded(fs, now), x) <==> has_fragment(fs, x),
{
    let us = all_faded(fs, now);
    if has_fragment(fs, x) {
        let k = choose|k: int| 0 <= k < fs.len() && (#[trigger] fs[k]).id == x;
        assert(us[k].id == x);
    }
    if has_fragment(us, x) {
        let k = choose|k: int| 0 <= k < us.len() && (#[trigger] us[k]).id == x;
        assert(fs[k].id == x);
    }
}

proof fn lemma_faded_sound(g: StorageView, now: i64)
    requires
        is_sound(g),
    ensures
        is_sound(StorageView { fragments: all_faded(g.fragments, now), ..g }),
{
    let fs = g.fragments;
    let us = all_faded(fs, now);
    assert forall|i: int, j: int| 0 <= i < j < us.len() implies (#[trigger] us[i]).id != (
    #[trigger] us[j]).id by {
        assert(fs[i].id != fs[j].id);
    }
    assert forall|i: int| 0 <= i < g.edges.len() implies has_fragment(
        us,
        (#[trigger] g.edges[i]).source,
    ) && has_fragment(us, g.edges[i].target) by {
        lemma_faded_has(fs, now, g.edges[i].source);
        lemma_faded_has(fs, now, g.edges[i].target);
    }
    assert forall|i: int| 0 <= i < us.len() implies ((
    #[trigger] us[i]).superseded_by matches Some(s) ==> has_fragment(us, s)) by {
        if let Some(s) = us[i].superseded_by {
            lemma_faded_has(fs, now, s);
            assert(fs[i].superseded_by == Some(s));
        }
    }
}

/// What adding an edge comes to.
pub open spec fn insert_edge_result(g: StorageView, e: EdgeView) -> Result<(), StorageError> {
    if has_edge(g.edges, e.id) {
        Err(StorageError::DuplicateId)
    } else if !has_fragment(g.fragments, e.source) || !has_fragment(g.fragments, e.target) {
        Err(StorageError::BrokenReference)
    } else {
        Ok(())
    }
}

/// What takes the place of a fragment for those that name it as their successor,
/// once it is removed: its own successor.
pub open spec fn heir(fs: Seq<FragmentView>, id: FragmentId) -> Option<FragmentId> {
    match fragment_of(fs, id) {
        Some(f) => if f.superseded_by == Some(id) {
            None
        } else {
            f.superseded_by
        },
        None => None,
    }
}

/// A fragment that names another one as its successor names a third one, or none,
/// in its place.
pub open spec fn released(id: FragmentId, next: Option<FragmentId>) -> spec_fn(
    FragmentView,
) -> FragmentView {
    |f: FragmentView|
        if f.superseded_by == Some(id) {
            FragmentView { superseded_by: next, ..f }
        } else {
            f
        }
}

/// The graph without a fragment and its edges. What it superseded is superseded
/// by its successor, if it has one, and is active again otherwise.
pub open spec fn without(g: StorageView, id: FragmentId) -> StorageView {
    StorageView {
        fragments: g.fragments.filter(other_than(id)).map_values(
            released(id, heir(g.fragments, id)),
        ),
        edges: g.edges.filter(apart_from(id)),
        ..g
    }
}

/// Removing a fragment and its edges leaves the graph sound.
proof fn lemma_without_sound(g: StorageView, id: FragmentId)
    requires
        is_sound(g),
    ensures
        is_sound(without(g, id)),
{
    let fs = g.fragments;
    let next = heir(fs, id);
    let to = released(id, next);
    let keep = other_than(id);
    let ks = fs.filter(keep);
    let rs = ks.map_values(to);
    let es = g.edges.filter(apart_from(id));
    lemma_fewer_edges_sound(g, apart_from(id));
    crate::lists::lemma_filter_members(fs, keep);
    crate::lists::lemma_filter_members(g.edges, apart_from(id));
    assert forall|x: FragmentId| x != id && has_fragment(fs, x) implies #[trigger] has_fragment(
        rs,
        x,
    ) by {
        let k = choose|k: int| 0 <= k < fs.len() && (#[trigger] fs[k]).id == x;
        assert(keep(fs[k]));
        let j = choose|j: int| 0 <= j < ks.len() && ks[j] == fs[k];
        assert(rs[j].id == x);
    }
    assert(unique_fragments(ks)) by {
        if has_fragment(fs, id) {
            let at = choose|at: int| 0 <= at < fs.len() && (#[trigger] fs[at]).id == id;
            lemma_filter_others(fs, at);
            assert forall|i: int, j: int| 0 <= i < j < ks.len() implies (#[trigger] ks[i]).id != (
            #[trigger] ks[j]).id by {
                let a = if i < at {
                    i
                } else {
                    i + 1
                };
                let b = if j < at {
                    j
                } else {
                    j + 1
                };
                assert(fs[a].id != fs[b].id);
            }
        } else {
            lemma_filter_all(fs, id);
        }
    }
    assert forall|i: int, j: int| 0 <= i < j < rs.len() implies (#[trigger] rs[i]).id != (
    #[trigger] rs[j]).id by {
        assert(ks[i].id != ks[j].id);
    }
    assert forall|i: int| 0 <= i < es.len() implies has_fragment(rs, (#[trigger] es[i]).source)
        && has_fragment(rs, es[i].target) by {
        assert(apart_from(id)(es[i]));
        let k = choose|k: int| 0 <= k < g.edges.len() && g.edges[k] == es[i];
        assert(has_fragment(fs, g.edges[k].source));
    }
    assert(next matches Some(x) ==> x != id && has_fragment(fs, x)) by {
        if has_fragment(fs, id) {
            let at = choose|at: int| 0 <= at < fs.len() && (#[trigger] fs[at]).id == id;
            assert(fragment_of(fs, id) == Some(fs[at]));
        }
    }
    assert forall|i: int| 0 <= i < rs.len() implies ((
    #[trigger] rs[i]).superseded_by matches Some(s) ==> has_fragment(rs, s)) by {
        assert(fs.contains(ks[i]));
        let k = choose|k: int| 0 <= k < fs.len() && fs[k] == ks[i];
        assert(fs[k].superseded_by matches Some(s) ==> has_fragment(fs, s));
    }
}

proof fn lemma_filter_all(fs: Seq<FragmentView>, id: FragmentId)
    requires
        forall|i: int| 0 <= i < fs.len() ==> (#[trigger] fs[i]).id != id,
    ensures
        fs.filter(other_than(id)) == fs,
    decreases fs.len(),
{
    reveal(Seq::filter);
    if fs.len() > 0 {
        assert forall|i: int| 0 <= i < fs.drop_last().len() implies (
        #[trigger] fs.drop_last()[i]).id != id by {
            assert(fs[i].id != id);
        }
        lemma_filter_all(fs.drop_last(), id);
        assert(fs[fs.len() - 1].id != id);
        assert(fs.drop_last().push(fs.last()) == fs);
    }
}

proof fn lemma_filter_others(fs: Seq<FragmentView>, at: int)
    requires
        unique_fragments(fs),
        0 <= at < fs.len(),
    ensures
        fs.remove(at) == fs.filter(other_than(fs[at].id)),
    decreases fs.len(),
{
    reveal(Seq::filter);
    let id = fs[at].id;
    let front = fs.drop_last();
    if at == fs.len() - 1 {
        assert forall|i: int| 0 <= i < front.len() implies (#[trigger] front[i]).id != id by {
            assert(fs[i].id != fs[at].id);
        }
        lemma_filter_all(front, id);
        assert(fs.remove(at) == front);
    } else {
        assert forall|i: int, j: int| 0 <= i < j < front.len() implies (#[trigger] front[i]).id
            != (#[trigger] front[j]).id by {
            assert(fs[i].id != fs[j].id);
        }
        lemma_filter_others(front, at);
        assert(fs[at].id != fs[fs.len() - 1].id);
        assert(fs.remove(at) == front.remove(at).push(fs.last()));
    }
}

impl Storage {
    /// Removes all edges from or to a fragment.
    pub fn delete_edges_of(&mut self, id: FragmentId)
        requires
            old(self).wf(),
        ensures
            final(self).wf(),
            final(self)@ == (StorageView {
                edges: old(self)@.edges.filter(apart_from(id)),
                ..old(self)@
            }),
    {
        let ghost before = self@;
        let ghost keep = apart_from(id);
        let mut kept: Vec<Edge> = Vec::new();
        let mut i: usize = 0;
        proof {
            crate::lists::lemma_filter_none(before.edges, keep);
            assert(crate::edge::edge_views(kept@) == before.edges.take(0).filter(keep));
        }
        while i < self.edges.len()
            invariant
                i <= self.edges.len(),
                before == self@,
                keep == apart_from(id),
                crate::edge::edge_views(kept@) == before.edges.take(i as int).filter(keep),
            decreases self.edges.len() - i,
        {
            let item = &self.edges[i];
            proof {
                crate::lists::lemma_filter_next(before.edges, keep, i as int);
                assert(before.edges[i as int] == item@);
            }
            if item.source != id && item.target != id {
                let copy = item.clone();
                assert(crate::edge::edge_views(kept@.push(copy)) == crate::edge::edge_views(
                    kept@,
                ).push(item@));
                kept.push(copy);
            }
            i = i + 1;
        }
        proof {
            assert(before.edges.take(i as int) == before.edges);
            crate::lists::lemma_filter_members(before.edges, keep);
            lemma_fewer_edges_sound(before, keep);
        }
        self.edges = kept;
        assert(self@ == (StorageView { edges: before.edges.filter(keep), ..before }));
    }

    /// Removes a fragment and all its edges. What it superseded is superseded by
    /// its successor, if it has one, and is active again otherwise.
    pub fn delete_fragment(&mut self, id: FragmentId) -> (r: Result<(), StorageError>)
        requires
            old(self).wf(),
        ensures
            final(self).wf(),
            r == Ok::<(), StorageError>(()),
            final(self)@ == without(old(self)@, id),
    {
        let ghost before = self@;
        let next: Option<FragmentId> = match self.position(id) {
            Some(at) => match self.fragments[at].superseded_by {
                Some(s) => if s == id {
                    None
                } else {
                    Some(s)
                },
                None => None,
            },
            None => None,
        };
        assert(next == heir(before.fragments, id));
        self.delete_edges_of(id);
        let ghost fs = before.fragments;
        let ghost keep = other_than(id);
        let ghost to = released(id, next);
        let mut kept: Vec<Fragment> = Vec::new();
        let mut i: usize = 0;
        proof {
            crate::lists::lemma_filter_none(fs, keep);
            assert(crate::fragment::fragment_views(kept@) == fs.take(0).filter(keep).map_values(
                to,
            ));
        }
        while i < self.fragments.len()
            invariant
                i <= self.fragments.len(),
                fs == self@.fragments,
                keep == other_than(id),
                to == released(id, next),
                crate::fragment::fragment_views(kept@) == fs.take(i as int).filter(
                    keep,
                ).map_values(to),
            decreases self.fragments.len() - i,
        {
            let item = &self.fragments[i];
            let ghost seen = fs.take(i as int).filter(keep);
            proof {
                crate::lists::lemma_filter_next(fs, keep, i as int);
                assert(fs[i as int] == item@);
                assert(seen.push(item@).map_values(to) == seen.map_values(to).push(to(item@)));
            }
            if item.id != id {
                let mut copy = item.clone();
                if let Some(s) = copy.superseded_by {
                    if s == id {
                        copy.superseded_by = next;
                    }
                }
                assert(copy@ == to(item@));
                assert(crate::fragment::fragment_views(kept@.push(copy))
                    == crate::fragment::fragment_views(kept@).push(copy@));
                kept.push(copy);
            }
            i = i + 1;
        }
        proof {
            assert(fs.take(i as int) == fs);
            lemma_without_sound(before, id);
        }
        self.fragments = kept;
        assert(self@ == without(before, id));
        Ok(())
    }

    /// Adds an edge.
    pub fn insert_edge(&mut self, edge: &Edge) -> (r: Result<(), StorageError>)
        requires
            old(self).wf(),
        ensures
            final(self).wf(),
            r == insert_edge_result(old(self)@, edge@),
            r is Ok ==> final(self)@ == (StorageView {
                edges: old(self)@.edges.push(edge@),
                ..old(self)@
            }),
            r is Err ==> final(self)@ == old(self)@,
    {
        let ghost before = self@;
        let mut i: usize = 0;
        while i < self.edges.len()
            invariant
                self@ == before,
                self.wf(),
                before == old(self)@,
                i <= self.edges.len(),
                forall|k: int| 0 <= k < i ==> (#[trigger] before.edges[k]).id != edge.id,
            decreases self.edges.len() - i,
        {
            assert(before.edges[i as int] == self.edges[i as int]@);
            if self.edges[i].id == edge.id {
                assert(has_edge(before.edges, edge.id));
                return Err(StorageError::DuplicateId);
            }
            i = i + 1;
        }
        if !self.contains_fragment(edge.source) || !self.contains_fragment(edge.target) {
            return Err(StorageError::BrokenReference);
        }
        let copy = edge.clone();
        self.edges.push(copy);
        assert(self@.edges == before.edges.push(edge@));
        assert(self@ == (StorageView { edges: before.edges.push(edge@), ..before }));
        Ok(())
    }

    /// Sets the weight of an edge.
    pub fn update_edge_weight(&mut self, id: EdgeId, weight: i64)
        requires
            old(self).wf(),
        ensures
            final(self).wf(),
            final(self)@ == (StorageView {
                edges: reweighted(old(self)@.edges, id, weight),
                ..old(self)@
            }),
    {
        let ghost before = self@;
        let mut i: usize = 0;
        while i < self.edges.len()
            invariant
                i <= self.edges.len(),
                self@.edges.len() == before.edges.len(),
                self@ == (StorageView { edges: self@.edges, ..before }),
                forall|k: int|
                    0 <= k < i ==> #[trigger] self@.edges[k] == reweighted(
                        before.edges,
                        id,
                        weight,
                    )[k],
                forall|k: int|
                    i <= k < self@.edges.len() ==> #[trigger] self@.edges[k] == before.edges[k],
            decreases self.edges.len() - i,
        {
            let ghost prior = self@;
            assert(prior.edges[i as int] == self.edges[i as int]@);
            if self.edges[i].id == id {
                self.edges[i].weight = weight;
            }
            assert forall|k: int| 0 <= k < self@.edges.len() && k != i implies #[trigger]
                self@.edges[k] == prior.edges[k] by {}
            i = i + 1;
        }
        assert(self@.edges == reweighted(before.edges, id, weight));
        proof {
            lemma_same_ends_sound(before, self@.edges);
        }
    }

    /// Multiplies the weights of all edges of a kind by a factor, and tells how
    /// many there are.
    pub fn decay_edge_weights(&mut self, kind: EdgeKind, factor: i64) -> (r: usize)
        requires
            old(self).wf(),
        ensures
            final(self).wf(),
            final(self)@ == (StorageView {
                edges: decayed(old(self)@.edges, kind, factor),
                ..old(self)@
            }),
            r == old(self)@.edges.filter(of_kind(kind)).len(),
    {
        let ghost before = self@;
        let mut count: usize = 0;
        let mut i: usize = 0;
        proof {
            crate::lists::lemma_filter_none(before.edges, of_kind(kind));
        }
        while i < self.edges.len()
            invariant
                i <= self.edges.len(),
                self@.edges.len() == before.edges.len(),
                self@ == (StorageView { edges: self@.edges, ..before }),
                forall|k: int|
                    0 <= k < i ==> #[trigger] self@.edges[k] == decayed(before.edges, kind, factor)[k],
                forall|k: int|
                    i <= k < self@.edges.len() ==> #[trigger] self@.edges[k] == before.edges[k],
                count == before.edges.take(i as int).filter(of_kind(kind)).len(),
                count <= i,
            decreases self.edges.len() - i,
        {
            let ghost prior = self@;
            proof {
                crate::lists::lemma_filter_next(before.edges, of_kind(kind), i as int);
                assert(prior.edges[i as int] == self.edges[i as int]@);
            }
            if self.edges[i].kind == kind {
                let weight: i64 = multiply(self.edges[i].weight, factor);
                self.edges[i].weight = weight;
                count = count + 1;
            }
            assert forall|k: int| 0 <= k < self@.edges.len() && k != i implies #[trigger]
                self@.edges[k] == prior.edges[k] by {}
            i = i + 1;
        }
        proof {
            assert(before.edges.take(i as int) == before.edges);
            assert(self@.edges == decayed(before.edges, kind, factor));
            lemma_same_ends_sound(before, self@.edges);
        }
        count
    }

    /// Removes the edges of a kind that are lighter than a weight, and tells how
    /// many there were.
    pub fn delete_weak_edges(&mut self, kind: EdgeKind, min_weight: i64) -> (r: usize)
        requires
            old(self).wf(),
        ensures
            final(self).wf(),
            final(self)@ == (StorageView {
                edges: old(self)@.edges.filter(not_weak(kind, min_weight)),
                ..old(self)@
            }),
            r == old(self)@.edges.len() - final(self)@.edges.len(),
    {
        let ghost before = self@;
        let ghost keep = not_weak(kind, min_weight);
        let before_len: usize = self.edges.len();
        let mut kept: Vec<Edge> = Vec::new();
        let mut i: usize = 0;
        proof {
            crate::lists::lemma_filter_none(before.edges, keep);
            assert(crate::edge::edge_views(kept@) == before.edges.take(0).filter(keep));
        }
        while i < self.edges.len()
            invariant
                i <= self.edges.len(),
                before == self@,
                keep == not_weak(kind, min_weight),
                crate::edge::edge_views(kept@) == before.edges.take(i as int).filter(keep),
            decreases self.edges.len() - i,
        {
            let item = &self.edges[i];
            proof {
                crate::lists::lemma_filter_next(before.edges, keep, i as int);
                assert(before.edges[i as int] == item@);
            }
            if !(item.kind == kind && item.weight < min_weight) {
                let copy = item.clone();
                assert(crate::edge::edge_views(kept@.push(copy)) == crate::edge::edge_views(
                    kept@,
                ).push(item@));
                kept.push(copy);
            }
            i = i + 1;
        }
        proof {
            assert(before.edges.take(i as int) == before.edges);
            crate::lists::lemma_filter_members(before.edges, keep);
            lemma_fewer_edges_sound(before, keep);
        }
        self.edges = kept;
        assert(self@ == (StorageView { edges: before.edges.filter(keep), ..before }));
        before_len - self.edges.len()
    }

    /// Removes the edges of a kind from one fragment to another.
    pub fn delete_edge_between(&mut self,
        source: FragmentId,
        target: FragmentId,
        kind: EdgeKind,
    )
        requires
            old(self).wf(),
        ensures
            final(self).wf(),
            final(self)@ == (StorageView {
                edges: old(self)@.edges.filter(not_between(source, target, kind)),
                ..old(self)@
            }),
    {
        let ghost before = self@;
        let ghost keep = not_between(source, target, kind);
        let mut kept: Vec<Edge> = Vec::new();
        let mut i: usize = 0;
        proof {
            crate::lists::lemma_filter_none(before.edges, keep);
            assert(crate::edge::edge_views(kept@) == before.edges.take(0).filter(keep));
        }
        while i < self.edges.len()
            invariant
                i <= self.edges.len(),
                before == self@,
                keep == not_between(source, target, kind),
                crate::edge::edge_views(kept@) == before.edges.take(i as int).filter(keep),
            decreases self.edges.len() - i,
        {
            let item = &self.edges[i];
            proof {
                crate::lists::lemma_filter_next(before.edges, keep, i as int);
                assert(before.edges[i as int] == item@);
            }
            if !(item.source == source && item.target == target && item.kind == kind) {
                let copy = item.clone();
                assert(crate::edge::edge_views(kept@.push(copy)) == crate::edge::edge_views(
                    kept@,
                ).push(item@));
                kept.push(copy);
            }
            i = i + 1;
        }
        proof {
            assert(before.edges.take(i as int) == before.edges);
            crate::lists::lemma_filter_members(before.edges, keep);
            lemma_fewer_edges_sound(before, keep);
        }
        self.edges = kept;
        assert(self@ == (StorageView { edges: before.edges.filter(keep), ..before }));
    }

    /// The active fragments at a depth.
    pub fn get_fragments_at_depth(&self, depth: u32) -> (r: Vec<Fragment>)
        requires
            self.wf(),
        ensures
            crate::fragment::fragment_views(r@) == self@.fragments.filter(at_depth(depth)),
    {
        let ghost keep = at_depth(depth);
        let mut out: Vec<Fragment> = Vec::new();
        let mut i: usize = 0;
        proof {
            crate::lists::lemma_filter_none(self@.fragments, keep);
            assert(crate::fragment::fragment_views(out@) == self@.fragments.take(0).filter(keep));
        }
        while i < self.fragments.len()
            invariant
                i <= self.fragments.len(),
                keep == at_depth(depth),
                crate::fragment::fragment_views(out@) == self@.fragments.take(i as int).filter(keep),
            decreases self.fragments.len() - i,
        {
            let item = &self.fragments[i];
            proof {
                crate::lists::lemma_filter_next(self@.fragments, keep, i as int);
                assert(self@.fragments[i as int] == item@);
            }
            if item.depth == depth && item.superseded_by.is_none() {
                let copy = item.clone();
                assert(crate::fragment::fragment_views(out@.push(copy)) == crate::fragment::fragment_views(out@).push(item@));
                out.push(copy);
            }
            i = i + 1;
        }
        assert(self@.fragments.take(i as int) == self@.fragments);
        out
    }

    /// The fragments whose identifiers begin with a text.
    pub fn get_fragments_by_prefix(&self, prefix: &str) -> (r: Vec<Fragment>)
        requires
            self.wf(),
        ensures
            crate::fragment::fragment_views(r@) == self@.fragments.filter(with_prefix(prefix@)),
    {
        let ghost keep = with_prefix(prefix@);
        let wanted = crate::text::to_chars(prefix);
        let mut out: Vec<Fragment> = Vec::new();
        let mut i: usize = 0;
        proof {
            crate::lists::lemma_filter_none(self@.fragments, keep);
            assert(crate::fragment::fragment_views(out@) == self@.fragments.take(0).filter(keep));
        }
        while i < self.fragments.len()
            invariant
                i <= self.fragments.len(),
                keep == with_prefix(prefix@),
                wanted@ == prefix@,
                crate::fragment::fragment_views(out@) == self@.fragments.take(i as int).filter(keep),
            decreases self.fragments.len() - i,
        {
            let item = &self.fragments[i];
            proof {
                crate::lists::lemma_filter_next(self@.fragments, keep, i as int);
                assert(self@.fragments[i as int] == item@);
            }
            let name = crate::text::to_chars(item.id.as_str().as_str());
            if crate::text::starts_with(&name, &wanted) {
                let copy = item.clone();
                assert(crate::fragment::fragment_views(out@.push(copy))
                    == crate::fragment::fragment_views(out@).push(item@));
                out.push(copy);
            }
            i = i + 1;
        }
        assert(self@.fragments.take(i as int) == self@.fragments);
        out
    }

    /// The active fragments with an embedding, at a depth if one is given.
    pub fn get_fragments_with_embeddings(&self, depth: Option<u32>) -> (r: Vec<Fragment>)
        requires
            self.wf(),
        ensures
            crate::fragment::fragment_views(r@) == self@.fragments.filter(embedded(depth)),
    {
        let ghost keep = embedded(depth);
        let mut out: Vec<Fragment> = Vec::new();
        let mut i: usize = 0;
        proof {
            crate::lists::lemma_filter_none(self@.fragments, keep);
            assert(crate::fragment::fragment_views(out@) == self@.fragments.take(0).filter(keep));
        }
        while i < self.fragments.len()
            invariant
                i <= self.fragments.len(),
                keep == embedded(depth),
                crate::fragment::fragment_views(out@) == self@.fragments.take(i as int).filter(keep),
            decreases self.fragments.len() - i,
        {
            let item = &self.fragments[i];
            proof {
                crate::lists::lemma_filter_next(self@.fragments, keep, i as int);
                assert(self@.fragments[i as int] == item@);
            }
            if item.embedding.len() > 0 && item.superseded_by.is_none() && match depth {
                Some(d) => item.depth == d,
                None => true,
            } {
                let copy = item.clone();
                assert(crate::fragment::fragment_views(out@.push(copy)) == crate::fragment::fragment_views(out@).push(item@));
                out.push(copy);
            }
            i = i + 1;
        }
        assert(self@.fragments.take(i as int) == self@.fragments);
        out
    }

    /// The active fragments below the roots that are of low relevance and older
    /// than an age.
    pub fn get_low_relevance_fragments(&self,
        max_relevance: i64,
        min_age_secs: i64,
        now: i64,
    ) -> (r: Vec<Fragment>)
        requires
            self.wf(),
        ensures
            crate::fragment::fragment_views(r@) == self@.fragments.filter(forgettable(max_relevance, min_age_secs, now)),
    {
        let ghost keep = forgettable(max_relevance, min_age_secs, now);
        let mut out: Vec<Fragment> = Vec::new();
        let mut i: usize = 0;
        proof {
            crate::lists::lemma_filter_none(self@.fragments, keep);
            assert(crate::fragment::fragment_views(out@) == self@.fragments.take(0).filter(keep));
        }
        while i < self.fragments.len()
            invariant
                i <= self.fragments.len(),
                keep == forgettable(max_relevance, min_age_secs, now),
                crate::fragment::fragment_views(out@) == self@.fragments.take(i as int).filter(keep),
            decreases self.fragments.len() - i,
        {
            let item = &self.fragments[i];
            proof {
                crate::lists::lemma_filter_next(self@.fragments, keep, i as int);
                assert(self@.fragments[i as int] == item@);
            }
            if item.superseded_by.is_none() && item.relevance_score < max_relevance && (
            item.created_at as i128) < now as i128 - min_age_secs as i128 && item.depth > 0 {
                let copy = item.clone();
                assert(crate::fragment::fragment_views(out@.push(copy)) == crate::fragment::fragment_views(out@).push(item@));
                out.push(copy);
            }
            i = i + 1;
        }
        assert(self@.fragments.take(i as int) == self@.fragments);
        out
    }

    /// All edges from or to a fragment.
    pub fn get_edges_for(&self, id: FragmentId) -> (r: Vec<Edge>)
        requires
            self.wf(),
        ensures
            crate::edge::edge_views(r@) == self@.edges.filter(touches(id)),
    {
        let ghost keep = touches(id);
        let mut out: Vec<Edge> = Vec::new();
        let mut i: usize = 0;
        proof {
            crate::lists::lemma_filter_none(self@.edges, keep);
            assert(crate::edge::edge_views(out@) == self@.edges.take(0).filter(keep));
        }
        while i < self.edges.len()
            invariant
                i <= self.edges.len(),
                keep == touches(id),
                crate::edge::edge_views(out@) == self@.edges.take(i as int).filter(keep),
            decreases self.edges.len() - i,
        {
            let item = &self.edges[i];
            proof {
                crate::lists::lemma_filter_next(self@.edges, keep, i as int);
                assert(self@.edges[i as int] == item@);
            }
            if item.source == id || item.target == id {
                let copy = item.clone();
                assert(crate::edge::edge_views(out@.push(copy)) == crate::edge::edge_views(out@).push(item@));
                out.push(copy);
            }
            i = i + 1;
        }
        assert(self@.edges.take(i as int) == self@.edges);
        out
    }

    /// The active children of a fragment.
    pub fn get_children(&self, id: FragmentId) -> (r: Vec<Fragment>)
        requires
            self.wf(),
        ensures
            crate::fragment::fragment_views(r@) == children_of(self@, id),
    {
        let ghost keep = leads_to_child(self@.fragments, id);
        let ghost to = target_of(self@.fragments);
        let mut out: Vec<Fragment> = Vec::new();
        let mut i: usize = 0;
        proof {
            crate::lists::lemma_filter_none(self@.edges, keep);
            assert(crate::fragment::fragment_views(out@) == self@.edges.take(0).filter(
                keep,
            ).map_values(to));
        }
        while i < self.edges.len()
            invariant
                self.wf(),
                i <= self.edges.len(),
                keep == leads_to_child(self@.fragments, id),
                to == target_of(self@.fragments),
                crate::fragment::fragment_views(out@) == self@.edges.take(i as int).filter(
                    keep,
                ).map_values(to),
            decreases self.edges.len() - i,
        {
            let item = &self.edges[i];
            let ghost seen = self@.edges.take(i as int).filter(keep);
            proof {
                crate::lists::lemma_filter_next(self@.edges, keep, i as int);
                assert(self@.edges[i as int] == item@);
                assert(seen.push(item@).map_values(to) == seen.map_values(to).push(to(item@)));
            }
            if item.source == id && item.kind == EdgeKind::Hierarchical {
                if let Some(k) = self.position(item.target) {
                    if self.fragments[k].superseded_by.is_none() {
                        let copy = self.fragments[k].clone();
                        assert(crate::fragment::fragment_views(out@.push(copy))
                            == crate::fragment::fragment_views(out@).push(copy@));
                        out.push(copy);
                    }
                }
            }
            i = i + 1;
        }
        assert(self@.edges.take(i as int) == self@.edges);
        out
    }

    /// The active fragments that associative edges connect a fragment with.
    pub fn get_associations(&self, id: FragmentId) -> (r: Vec<Fragment>)
        requires
            self.wf(),
        ensures
            crate::fragment::fragment_views(r@) == associations_of(self@, id),
    {
        let ghost keep = associates(self@.fragments, id);
        let ghost to = other_of(self@.fragments, id);
        let mut out: Vec<Fragment> = Vec::new();
        let mut i: usize = 0;
        proof {
            crate::lists::lemma_filter_none(self@.edges, keep);
            assert(crate::fragment::fragment_views(out@) == self@.edges.take(0).filter(
                keep,
            ).map_values(to));
        }
        while i < self.edges.len()
            invariant
                self.wf(),
                i <= self.edges.len(),
                keep == associates(self@.fragments, id),
                to == other_of(self@.fragments, id),
                crate::fragment::fragment_views(out@) == self@.edges.take(i as int).filter(
                    keep,
                ).map_values(to),
            decreases self.edges.len() - i,
        {
            let item = &self.edges[i];
            let ghost seen = self@.edges.take(i as int).filter(keep);
            proof {
                crate::lists::lemma_filter_next(self@.edges, keep, i as int);
                assert(self@.edges[i as int] == item@);
                assert(seen.push(item@).map_values(to) == seen.map_values(to).push(to(item@)));
            }
            if (item.source == id || item.target == id) && item.kind == EdgeKind::Associative {
                let other: FragmentId = if item.source == id {
                    item.target
                } else {
                    item.source
                };
                if other != id {
                    if let Some(k) = self.position(other) {
                        if self.fragments[k].superseded_by.is_none() {
                            let copy = self.fragments[k].clone();
                            assert(crate::fragment::fragment_views(out@.push(copy))
                                == crate::fragment::fragment_views(out@).push(copy@));
                            out.push(copy);
                        }
                    }
                }
            }
            i = i + 1;
        }
        assert(self@.edges.take(i as int) == self@.edges);
        out
    }

    /// The parent of a fragment.
    pub fn get_parent(&self, id: FragmentId) -> (r: Option<Fragment>)
        requires
            self.wf(),
        ensures
            match r {
                Some(f) => parent_of(self@, id) == Some(f@),
                None => parent_of(self@, id) is None,
            },
    {
        let ghost keep = leads_from_parent(id);
        let mut i: usize = 0;
        proof {
            crate::lists::lemma_filter_none(self@.edges, keep);
        }
        while i < self.edges.len()
            invariant
                self.wf(),
                i <= self.edges.len(),
                keep == leads_from_parent(id),
                self@.edges.take(i as int).filter(keep).len() == 0,
            decreases self.edges.len() - i,
        {
            let item = &self.edges[i];
            proof {
                crate::lists::lemma_filter_next(self@.edges, keep, i as int);
                assert(self@.edges[i as int] == item@);
            }
            if item.target == id && item.kind == EdgeKind::Hierarchical {
                proof {
                    lemma_filter_prefix(self@.edges, keep, i + 1);
                    assert(self@.edges.take(i + 1).filter(keep)[0] == item@);
                }
                return self.get_fragment(item.source);
            }
            i = i + 1;
        }
        assert(self@.edges.take(i as int) == self@.edges);
        None
    }
}

/// What a filter keeps of a beginning comes first in what it keeps of all.
proof fn lemma_filter_prefix<A>(s: Seq<A>, keep: spec_fn(A) -> bool, n: int)
    requires
        0 <= n <= s.len(),
    ensures
        s.take(n).filter(keep).len() <= s.filter(keep).len(),
        forall|k: int|
            0 <= k < s.take(n).filter(keep).len() ==> #[trigger] s.take(n).filter(keep)[k]
                == s.filter(keep)[k],
    decreases s.len() - n,
{
    if n < s.len() {
        crate::lists::lemma_filter_next(s, keep, n);
        lemma_filter_prefix(s, keep, n + 1);
        let a = s.take(n).filter(keep);
        let b = s.take(n + 1).filter(keep);
        assert forall|k: int| 0 <= k < a.len() implies #[trigger] a[k] == s.filter(keep)[k] by {
            assert(a[k] == b[k]);
        }
    } else {
        assert(s.take(n) == s);
    }
}

/// Edges with the same identifiers and ends leave the graph sound.
proof fn lemma_same_ends_sound(g: StorageView, es: Seq<EdgeView>)
    requires
        is_sound(g),
        es.len() == g.edges.len(),
        forall|i: int|
            0 <= i < es.len() ==> (#[trigger] es[i]).id == g.edges[i].id && es[i].source
                == g.edges[i].source && es[i].target == g.edges[i].target,
    ensures
        is_sound(StorageView { edges: es, ..g }),
{
    assert forall|i: int, j: int| 0 <= i < j < es.len() implies (#[trigger] es[i]).id != (
    #[trigger] es[j]).id by {
        assert(g.edges[i].id != g.edges[j].id);
    }
    assert forall|i: int| 0 <= i < es.len() implies has_fragment(
        g.fragments,
        (#[trigger] es[i]).source,
    ) && has_fragment(g.fragments, es[i].target) by {
        assert(has_fragment(g.fragments, g.edges[i].source));
    }
}

// ---- reading positions ----

impl Storage {
    /// The reading position in a file: the byte offset, and when it was set.
    pub fn get_watermark(&self, file_path: &str) -> (r: Option<(i64, i64)>)
        ensures
            match r {
                Some(w) => self@.watermarks.dom().contains(file_path@) && self@.watermarks[file_path@]
                    == w,
                None => !self@.watermarks.dom().contains(file_path@),
            },
    {
        let mut i: usize = self.watermarks.len();
        assert(self.watermarks@.take(i as int) == self.watermarks@);
        while i > 0
            invariant
                i <= self.watermarks.len(),
                self@.watermarks.dom().contains(file_path@) <==> watermark_map(
                    self.watermarks@.take(i as int),
                ).dom().contains(file_path@),
                self@.watermarks.dom().contains(file_path@) ==> self@.watermarks[file_path@]
                    == watermark_map(self.watermarks@.take(i as int))[file_path@],
            decreases i,
        {
            let w = &self.watermarks[i - 1];
            proof {
                assert(self.watermarks@.take(i as int).drop_last() == self.watermarks@.take(i - 1));
                assert(self.watermarks@.take(i as int).last() == w);
            }
            if same(w.file_path.as_str(), file_path) {
                return Some((w.byte_offset, w.last_processed));
            }
            i = i - 1;
        }
        None
    }

    /// Sets the reading position in a file, as of a given time.
    pub fn set_watermark_at(&mut self, file_path: &str, byte_offset: i64, now: i64)
        requires
            old(self).wf(),
        ensures
            final(self).wf(),
            final(self)@ == (StorageView {
                watermarks: old(self)@.watermarks.insert(file_path@, (byte_offset, now)),
                ..old(self)@
            }),
    {
        let ghost before = self@;
        let ghost list = self.watermarks@;
        let mut i: usize = 0;
        while i < self.watermarks.len() && !same(self.watermarks[i].file_path.as_str(), file_path)
            invariant
                self@ == before,
                self.watermarks@ == list,
                i <= self.watermarks.len(),
            decreases self.watermarks.len() - i,
        {
            i = i + 1;
        }
        if i < self.watermarks.len() {
            self.watermarks.remove(i);
            proof {
                lemma_watermark_removed(list, i as int, (byte_offset, now));
            }
        }
        let ghost rest = self.watermarks@;
        self.watermarks.push(
            Watermark { file_path: file_path.to_owned(), byte_offset, last_processed: now },
        );
        assert(self.watermarks@.drop_last() == rest);
        assert(self@ == (StorageView {
            watermarks: before.watermarks.insert(file_path@, (byte_offset, now)),
            ..before
        }));
    }

    /// Sets the reading position in a file.
    pub fn set_watermark(&mut self, file_path: &str, byte_offset: i64)
        requires
            old(self).wf(),
        ensures
            final(self).wf(),
            exists|now: i64|
                now >= 0 && final(self)@ == (StorageView {
                    watermarks: #[trigger] old(self)@.watermarks.insert(
                        file_path@,
                        (byte_offset, now),
                    ),
                    ..old(self)@
                }),
    {
        let now: i64 = now_unix();
        self.set_watermark_at(file_path, byte_offset, now);
    }
}

/// Taking out an entry makes no difference once its key is set anew.
proof fn lemma_watermark_removed(v: Seq<Watermark>, at: int, w: (i64, i64))
    requires
        0 <= at < v.len(),
    ensures
        watermark_map(v.remove(at)).insert(v[at].file_path@, w) == watermark_map(v).insert(
            v[at].file_path@,
            w,
        ),
    decreases v.len(),
{
    let key = v[at].file_path@;
    if at == v.len() - 1 {
        assert(v.remove(at) == v.drop_last());
        assert(watermark_map(v).insert(key, w) =~= watermark_map(v.drop_last()).insert(key, w));
    } else {
        let front = v.drop_last();
        lemma_watermark_removed(front, at, w);
        assert(v.remove(at).drop_last() == front.remove(at));
        assert(v.remove(at).last() == v.last());
        let k = v.last().file_path@;
        let x = (v.last().byte_offset, v.last().last_processed);
        let m1 = watermark_map(front.remove(at));
        let m2 = watermark_map(front);
        assert(m1.insert(key, w) == m2.insert(key, w));
        if k == key {
            assert(m1.insert(k, x).insert(key, w) =~= m1.insert(key, w));
            assert(m2.insert(k, x).insert(key, w) =~= m2.insert(key, w));
        } else {
            assert(m1.insert(k, x).insert(key, w) =~= m1.insert(key, w).insert(k, x));
            assert(m2.insert(k, x).insert(key, w) =~= m2.insert(key, w).insert(k, x));
        }
    }
}

// ---- waiting turns ----

/// A conversation session with turns that wait to be digested.
#[derive(Debug)]
pub struct StagedSession {
    pub file_path: String,
    /// When the latest of the turns was staged.
    pub last_staged: i64,
    pub turn_count: usize,
}

/// What a waiting session holds.
#[verifier::ext_equal]
pub struct SessionView {
    pub file_path: Seq<char>,
    pub last_staged: i64,
    pub turn_count: nat,
}

impl View for StagedSession {
    type V = SessionView;

    open spec fn view(&self) -> SessionView {
        SessionView {
            file_path: self.file_path@,
            last_staged: self.last_staged,
            turn_count: self.turn_count as nat,
        }
    }
}

/// What the sessions of a list hold.
pub open spec fn session_views(v: Seq<StagedSession>) -> Seq<SessionView> {
    Seq::new(v.len(), |i: int| v[i]@)
}

/// A conversation turn that waits to be digested.
#[derive(Debug)]
pub struct StagedTurn {
    pub id: i64,
    pub role: String,
    pub text: String,
}

/// What a waiting turn tells of itself.
#[verifier::ext_equal]
pub struct StagedTurnView {
    pub id: i64,
    pub role: Seq<char>,
    pub text: Seq<char>,
}

impl View for StagedTurn {
    type V = StagedTurnView;

    open spec fn view(&self) -> StagedTurnView {
        StagedTurnView { id: self.id, role: self.role@, text: self.text@ }
    }
}

/// What the turns of a list tell of themselves.
pub open spec fn staged_turn_views(v: Seq<StagedTurn>) -> Seq<StagedTurnView> {
    Seq::new(v.len(), |i: int| v[i]@)
}

/// A turn of a conversation log.
pub open spec fn from_file(file_path: Seq<char>) -> spec_fn(TurnView) -> bool {
    |t: TurnView| t.file_path == file_path
}

/// A turn of another conversation log.
pub open spec fn from_other_file(file_path: Seq<char>) -> spec_fn(TurnView) -> bool {
    |t: TurnView| t.file_path != file_path
}

/// Identifier, role and text of a turn.
pub open spec fn told() -> spec_fn(TurnView) -> StagedTurnView {
    |t: TurnView| StagedTurnView { id: t.id, role: t.role, text: t.text }
}

/// The turns with some more of one log behind them, numbered from `next` on.
pub open spec fn staged(
    turns: Seq<TurnView>,
    file_path: Seq<char>,
    new_turns: Seq<(Seq<char>, Seq<char>)>,
    next: i64,
    now: i64,
) -> Seq<TurnView> {
    turns + Seq::new(
        new_turns.len(),
        |i: int|
            TurnView {
                id: (next + i) as i64,
                file_path,
                role: new_turns[i].0,
                text: new_turns[i].1,
                staged_at: now,
            },
    )
}

/// Roles and texts of a list of turns.
pub open spec fn pair_views(v: Seq<(String, String)>) -> Seq<(Seq<char>, Seq<char>)> {
    Seq::new(v.len(), |i: int| (v[i].0@, v[i].1@))
}

proof fn lemma_staged_in_order(
    turns: Seq<TurnView>,
    file_path: Seq<char>,
    new_turns: Seq<(Seq<char>, Seq<char>)>,
    next: i64,
    now: i64,
)
    requires
        turns_in_order(turns, next),
        next + new_turns.len() <= i64::MAX,
    ensures
        turns_in_order(
            staged(turns, file_path, new_turns, next, now),
            (next + new_turns.len()) as i64,
        ),
{
    let all = staged(turns, file_path, new_turns, next, now);
    assert forall|a: int, b: int| 0 <= a < b < all.len() implies (#[trigger] all[a]).id < (
    #[trigger] all[b]).id by {
        if b < turns.len() {
            assert(turns[a].id < turns[b].id);
        } else if a < turns.len() {
            assert(turns[a].id < next);
        }
    }
    assert forall|a: int| 0 <= a < all.len() implies (#[trigger] all[a]).id < (next
        + new_turns.len()) as i64 by {
        if a < turns.len() {
            assert(turns[a].id < next);
        }
    }
}

/// The sessions with waiting turns, in the order of their first turns.
pub open spec fn sessions_of(turns: Seq<TurnView>) -> Seq<SessionView>
    decreases turns.len(),
{
    if turns.len() == 0 {
        Seq::empty()
    } else {
        with_turn(sessions_of(turns.drop_last()), turns.last())
    }
}

/// The sessions with one turn more.
pub open spec fn with_turn(sessions: Seq<SessionView>, t: TurnView) -> Seq<SessionView> {
    let one = SessionView { file_path: t.file_path, last_staged: t.staged_at, turn_count: 1 };
    if exists|i: int| 0 <= i < sessions.len() && (#[trigger] sessions[i]).file_path == t.file_path {
        Seq::new(
            sessions.len(),
            |i: int|
                if sessions[i].file_path == t.file_path {
                    SessionView {
                        file_path: t.file_path,
                        last_staged: if t.staged_at > sessions[i].last_staged {
                            t.staged_at
                        } else {
                            sessions[i].last_staged
                        },
                        turn_count: sessions[i].turn_count + 1,
                    }
                } else {
                    sessions[i]
                },
        )
    } else {
        sessions.push(one)
    }
}

/// A session whose latest turn is older than a threshold.
pub open spec fn is_idle(idle_threshold_secs: i64, now: i64) -> spec_fn(SessionView) -> bool {
    |s: SessionView| s.last_staged < now - idle_threshold_secs
}

/// The keys by which sessions are ranked, the oldest first.
pub open spec fn age_keys(sessions: Seq<SessionView>) -> Seq<int> {
    Seq::new(sessions.len(), |i: int| -sessions[i].last_staged as int)
}

/// The idle sessions, the oldest first.
pub open spec fn idle_sessions(turns: Seq<TurnView>, idle_threshold_secs: i64, now: i64) -> Seq<
    SessionView,
> {
    let idle = sessions_of(turns).filter(is_idle(idle_threshold_secs, now));
    crate::lists::ranked(idle, age_keys(idle))
}

/// No two sessions are of the same log.
spec fn distinct_sessions(s: Seq<SessionView>) -> bool {
    forall|i: int, j: int|
        0 <= i < j < s.len() ==> (#[trigger] s[i]).file_path != (#[trigger] s[j]).file_path
}

impl Storage {
    /// Stages conversation turns, given as roles and texts, as of a given time.
    /// Tells how many there are; where they cannot all be numbered, none is
    /// staged.
    pub fn stage_turns_at(
        &mut self,
        file_path: &str,
        turns: &Vec<(String, String)>,
        now: i64,
    ) -> (r: Result<usize, StorageError>)
        requires
            old(self).wf(),
        ensures
            final(self).wf(),
            r == (if old(self)@.next_turn + turns.len() > i64::MAX {
                Err::<usize, StorageError>(StorageError::Full)
            } else {
                Ok(turns.len())
            }),
            r is Ok ==> final(self)@ == (StorageView {
                turns: staged(
                    old(self)@.turns,
                    file_path@,
                    pair_views(turns@),
                    old(self)@.next_turn,
                    now,
                ),
                next_turn: (old(self)@.next_turn + turns.len()) as i64,
                ..old(self)@
            }),
            r is Err ==> final(self)@ == old(self)@,
    {
        let ghost before = self@;
        if self.next_turn as i128 + turns.len() as i128 > i64::MAX as i128 {
            return Err(StorageError::Full);
        }
        let ghost all = staged(
            before.turns,
            file_path@,
            pair_views(turns@),
            before.next_turn,
            now,
        );
        let mut i: usize = 0;
        while i < turns.len()
            invariant
                i <= turns.len(),
                before.next_turn + turns.len() <= i64::MAX,
                self.next_turn == before.next_turn + i,
                all == staged(
                    before.turns,
                    file_path@,
                    pair_views(turns@),
                    before.next_turn,
                    now,
                ),
                self@.turns == all.take(before.turns.len() + i),
                self@ == (StorageView {
                    turns: self@.turns,
                    next_turn: (before.next_turn + i) as i64,
                    ..before
                }),
            decreases turns.len() - i,
        {
            let ghost prior = self@;
            let turn = Turn {
                id: self.next_turn,
                file_path: file_path.to_owned(),
                role: turns[i].0.clone(),
                text: turns[i].1.clone(),
                staged_at: now,
            };
            self.turns.push(turn);
            self.next_turn = self.next_turn + 1;
            proof {
                assert(all[before.turns.len() + i] == turn_view(turn));
                assert(self@.turns == prior.turns.push(turn_view(turn)));
                assert(all.take(before.turns.len() + i + 1) == all.take(
                    before.turns.len() + i,
                ).push(all[before.turns.len() + i]));
            }
            i = i + 1;
        }
        proof {
            assert(all.take(before.turns.len() + i) == all);
            lemma_staged_in_order(
                before.turns,
                file_path@,
                pair_views(turns@),
                before.next_turn,
                now,
            );
        }
        Ok(turns.len())
    }

    /// Stages conversation turns, given as roles and texts.
    pub fn stage_turns(&mut self, file_path: &str, turns: &Vec<(String, String)>) -> (r: Result<
        usize,
        StorageError,
    >)
        requires
            old(self).wf(),
        ensures
            final(self).wf(),
            r == (if old(self)@.next_turn + turns.len() > i64::MAX {
                Err::<usize, StorageError>(StorageError::Full)
            } else {
                Ok(turns.len())
            }),
            r is Ok ==> exists|now: i64|
                now >= 0 && final(self)@ == (StorageView {
                    turns: #[trigger] staged(
                        old(self)@.turns,
                        file_path@,
                        pair_views(turns@),
                        old(self)@.next_turn,
                        now,
                    ),
                    next_turn: (old(self)@.next_turn + turns.len()) as i64,
                    ..old(self)@
                }),
            r is Err ==> final(self)@ == old(self)@,
    {
        let now: i64 = now_unix();
        self.stage_turns_at(file_path, turns, now)
    }

    /// The sessions whose latest turn is older than a threshold, the oldest
    /// first.
    pub fn get_staged_sessions(&self, idle_threshold_secs: i64, now: i64) -> (r: Vec<StagedSession>)
        ensures
            session_views(r@) == idle_sessions(self@.turns, idle_threshold_secs, now),
    {
        let all = self.list_sessions();
        let ghost keep = is_idle(idle_threshold_secs, now);
        let ghost every = sessions_of(self@.turns);
        let mut idle: Vec<StagedSession> = Vec::new();
        let mut keys: Vec<i128> = Vec::new();
        let mut i: usize = 0;
        proof {
            crate::lists::lemma_filter_none(every, keep);
            assert(session_views(idle@) == every.take(0).filter(keep));
        }
        while i < all.len()
            invariant
                i <= all.len(),
                keep == is_idle(idle_threshold_secs, now),
                session_views(all@) == every,
                session_views(idle@) == every.take(i as int).filter(keep),
                crate::lists::key_views(keys@) == age_keys(session_views(idle@)),
            decreases all.len() - i,
        {
            proof {
                crate::lists::lemma_filter_next(every, keep, i as int);
                assert(every[i as int] == all@[i as int]@);
            }
            if (all[i].last_staged as i128) < now as i128 - idle_threshold_secs as i128 {
                let s = StagedSession {
                    file_path: all[i].file_path.clone(),
                    last_staged: all[i].last_staged,
                    turn_count: all[i].turn_count,
                };
                let key: i128 = -(all[i].last_staged as i128);
                proof {
                    assert(session_views(idle@.push(s)) == session_views(idle@).push(s@));
                    assert(crate::lists::key_views(keys@.push(key)) == crate::lists::key_views(
                        keys@,
                    ).push(key as int));
                    assert(age_keys(session_views(idle@).push(s@)) == age_keys(
                        session_views(idle@),
                    ).push(key as int));
                }
                keys.push(key);
                idle.push(s);
            }
            i = i + 1;
        }
        assert(every.take(i as int) == every);
        let order = crate::lists::rank(&keys);
        let ghost places = crate::lists::place_views(order@);
        assert(keys.len() == idle.len()) by {
            assert(crate::lists::key_views(keys@).len() == age_keys(session_views(idle@)).len());
        }
        let mut out: Vec<StagedSession> = Vec::new();
        let mut k: usize = 0;
        while k < order.len()
            invariant
                k <= order.len(),
                order.len() == idle.len(),
                places == crate::lists::place_views(order@),
                forall|j: int| 0 <= j < order.len() ==> #[trigger] order[j] < idle.len(),
                out.len() == k,
                forall|j: int|
                    0 <= j < k ==> (#[trigger] out@[j])@ == session_views(idle@)[places[j]],
            decreases order.len() - k,
        {
            let at: usize = order[k];
            assert(places[k as int] == at);
            out.push(
                StagedSession {
                    file_path: idle[at].file_path.clone(),
                    last_staged: idle[at].last_staged,
                    turn_count: idle[at].turn_count,
                },
            );
            k = k + 1;
        }
        assert(session_views(out@) == idle_sessions(self@.turns, idle_threshold_secs, now));
        out
    }

    /// All sessions with waiting turns.
    fn list_sessions(&self) -> (r: Vec<StagedSession>)
        ensures
            session_views(r@) == sessions_of(self@.turns),
    {
        let mut out: Vec<StagedSession> = Vec::new();
        let mut i: usize = 0;
        assert(session_views(out@) == sessions_of(self@.turns.take(0)));
        while i < self.turns.len()
            invariant
                i <= self.turns.len(),
                session_views(out@) == sessions_of(self@.turns.take(i as int)),
                distinct_sessions(session_views(out@)),
                forall|k: int| 0 <= k < out.len() ==> (#[trigger] out@[k]).turn_count <= i,
            decreases self.turns.len() - i,
        {
            let t = &self.turns[i];
            let ghost before = session_views(out@);
            let ghost tv = turn_view(*t);
            proof {
                assert(self@.turns.take(i + 1).drop_last() == self@.turns.take(i as int));
                assert(self@.turns.take(i + 1).last() == tv);
            }
            let mut k: usize = 0;
            while k < out.len() && !same(out[k].file_path.as_str(), t.file_path.as_str())
                invariant
                    k <= out.len(),
                    before == session_views(out@),
                    tv == turn_view(*t),
                    forall|j: int|
                        0 <= j < k ==> (#[trigger] before[j]).file_path != tv.file_path,
                decreases out.len() - k,
            {
                assert(before[k as int] == out@[k as int]@);
                k = k + 1;
            }
            if k < out.len() {
                assert(before[k as int] == out@[k as int]@);
                let count: usize = out[k].turn_count;
                let last: i64 = if t.staged_at > out[k].last_staged {
                    t.staged_at
                } else {
                    out[k].last_staged
                };
                out[k].last_staged = last;
                out[k].turn_count = count + 1;
                proof {
                    assert(before[k as int].file_path == tv.file_path);
                    let after = with_turn(before, tv);
                    assert forall|j: int| 0 <= j < before.len() implies #[trigger] session_views(
                        out@,
                    )[j] == after[j] by {
                        if j != k {
                            assert(before[j] == out@[j]@);
                            if j < k {
                                assert(before[j].file_path != before[k as int].file_path);
                            } else {
                                assert(before[k as int].file_path != before[j].file_path);
                            }
                        }
                    }
                    assert(session_views(out@) == after);
                }
            } else {
                let s = StagedSession {
                    file_path: t.file_path.clone(),
                    last_staged: t.staged_at,
                    turn_count: 1,
                };
                out.push(s);
                proof {
                    assert(session_views(out@) == before.push(s@));
                    assert(session_views(out@) == with_turn(before, tv));
                    assert(distinct_sessions(session_views(out@))) by {
                        let after = session_views(out@);
                        assert forall|a: int, b: int| 0 <= a < b < after.len() implies (
                        #[trigger] after[a]).file_path != (#[trigger] after[b]).file_path by {
                            if b < before.len() {
                                assert(before[a].file_path != before[b].file_path);
                            } else {
                                assert(before[a].file_path != tv.file_path);
                            }
                        }
                    }
                }
            }
            i = i + 1;
        }
        assert(self@.turns.take(i as int) == self@.turns);
        out
    }

    /// The waiting turns of a session, in the order in which they were staged.
    pub fn get_staged_turns(&self, file_path: &str) -> (r: Vec<StagedTurn>)
        ensures
            staged_turn_views(r@) == self@.turns.filter(from_file(file_path@)).map_values(told()),
    {
        let ghost keep = from_file(file_path@);
        let mut out: Vec<StagedTurn> = Vec::new();
        let mut i: usize = 0;
        proof {
            crate::lists::lemma_filter_none(self@.turns, keep);
            assert(staged_turn_views(out@) == self@.turns.take(0).filter(keep).map_values(told()));
        }
        while i < self.turns.len()
            invariant
                i <= self.turns.len(),
                keep == from_file(file_path@),
                staged_turn_views(out@) == self@.turns.take(i as int).filter(keep).map_values(
                    told(),
                ),
            decreases self.turns.len() - i,
        {
            let t = &self.turns[i];
            let ghost seen = self@.turns.take(i as int).filter(keep);
            proof {
                crate::lists::lemma_filter_next(self@.turns, keep, i as int);
                assert(self@.turns[i as int] == turn_view(*t));
                assert(seen.push(turn_view(*t)).map_values(told()) == seen.map_values(told()).push(
                    told()(turn_view(*t)),
                ));
            }
            if same(t.file_path.as_str(), file_path) {
                let s = StagedTurn { id: t.id, role: t.role.clone(), text: t.text.clone() };
                assert(staged_turn_views(out@.push(s)) == staged_turn_views(out@).push(s@));
                out.push(s);
            }
            i = i + 1;
        }
        assert(self@.turns.take(i as int) == self@.turns);
        out
    }

    /// Removes the waiting turns of a session, and tells how many there were.
    pub fn delete_staged_turns(&mut self, file_path: &str) -> (r: usize)
        requires
            old(self).wf(),
        ensures
            final(self).wf(),
            final(self)@ == (StorageView {
                turns: old(self)@.turns.filter(from_other_file(file_path@)),
                ..old(self)@
            }),
            r == old(self)@.turns.len() - final(self)@.turns.len(),
    {
        let ghost before = self@;
        let ghost keep = from_other_file(file_path@);
        let before_len: usize = self.turns.len();
        let mut kept: Vec<Turn> = Vec::new();
        let mut i: usize = 0;
        proof {
            crate::lists::lemma_filter_none(before.turns, keep);
            assert(turn_views(kept@) == before.turns.take(0).filter(keep));
        }
        while i < self.turns.len()
            invariant
                i <= self.turns.len(),
                before == self@,
                keep == from_other_file(file_path@),
                turn_views(kept@) == before.turns.take(i as int).filter(keep),
            decreases self.turns.len() - i,
        {
            let t = &self.turns[i];
            proof {
                crate::lists::lemma_filter_next(before.turns, keep, i as int);
                assert(before.turns[i as int] == turn_view(*t));
            }
            if !same(t.file_path.as_str(), file_path) {
                let copy = Turn {
                    id: t.id,
                    file_path: t.file_path.clone(),
                    role: t.role.clone(),
                    text: t.text.clone(),
                    staged_at: t.staged_at,
                };
                assert(turn_views(kept@.push(copy)) == turn_views(kept@).push(turn_view(*t)));
                kept.push(copy);
            }
            i = i + 1;
        }
        proof {
            assert(before.turns.take(i as int) == before.turns);
            crate::lists::lemma_filter_members(before.turns, keep);
            lemma_fewer_turns_in_order(before.turns, keep, before.next_turn);
        }
        self.turns = kept;
        assert(self@ == (StorageView { turns: before.turns.filter(keep), ..before }));
        before_len - self.turns.len()
    }
}

proof fn lemma_fewer_turns_in_order(
    turns: Seq<TurnView>,
    keep: spec_fn(TurnView) -> bool,
    next: i64,
)
    requires
        turns_in_order(turns, next),
    ensures
        turns_in_order(turns.filter(keep), next),
    decreases turns.len(),
{
    reveal(Seq::filter);
    if turns.len() > 0 {
        let front = turns.drop_last();
        assert(turns_in_order(front, next)) by {
            assert forall|i: int, j: int| 0 <= i < j < front.len() implies (#[trigger] front[i]).id
                < (#[trigger] front[j]).id by {
                assert(turns[i].id < turns[j].id);
            }
            assert forall|i: int| 0 <= i < front.len() implies (#[trigger] front[i]).id < next by {
                assert(turns[i].id < next);
            }
        }
        lemma_fewer_turns_in_order(front, keep, next);
        crate::lists::lemma_filter_members(front, keep);
        let kept = turns.filter(keep);
        let fk = front.filter(keep);
        assert forall|i: int, j: int| 0 <= i < j < kept.len() implies (#[trigger] kept[i]).id < (
        #[trigger] kept[j]).id by {
            if j < fk.len() {
                assert(fk[i].id < fk[j].id);
            } else {
                assert(front.contains(fk[i]));
                let k = choose|k: int| 0 <= k < front.len() && front[k] == fk[i];
                assert(turns[k].id < turns[turns.len() - 1].id);
            }
        }
        assert forall|i: int| 0 <= i < kept.len() implies (#[trigger] kept[i]).id < next by {
            if i < fk.len() {
                assert(fk[i].id < next);
            } else {
                assert(turns[turns.len() - 1].id < next);
            }
        }
    }
}

// ---- loading and saving ----

impl Storage {
    /// All fragments, superseded ones among them.
    pub fn fragments(&self) -> (r: &Vec<Fragment>)
        ensures
            crate::fragment::fragment_views(r@) == self@.fragments,
    {
        &self.fragments
    }

    /// All edges.
    pub fn edges(&self) -> (r: &Vec<Edge>)
        ensures
            crate::edge::edge_views(r@) == self@.edges,
    {
        &self.edges
    }

    /// All reading positions: the path, the byte offset, and when it was set.
    pub fn watermarks(&self) -> (r: Vec<(String, i64, i64)>)
        ensures
            position_map(r@) == self@.watermarks,
    {
        let mut out: Vec<(String, i64, i64)> = Vec::new();
        let mut i: usize = 0;
        assert(position_map(out@) == watermark_map(self.watermarks@.take(0)));
        while i < self.watermarks.len()
            invariant
                i <= self.watermarks.len(),
                position_map(out@) == watermark_map(self.watermarks@.take(i as int)),
            decreases self.watermarks.len() - i,
        {
            let w = &self.watermarks[i];
            let copy = (w.file_path.clone(), w.byte_offset, w.last_processed);
            proof {
                assert(self.watermarks@.take(i + 1).drop_last() == self.watermarks@.take(i as int));
                assert(self.watermarks@.take(i + 1).last() == w);
                assert(out@.push(copy).drop_last() == out@);
            }
            out.push(copy);
            i = i + 1;
        }
        assert(self.watermarks@.take(i as int) == self.watermarks@);
        out
    }

    /// All waiting turns.
    pub fn waiting_turns(&self) -> (r: Vec<WaitingTurn>)
        ensures
            waiting_views(r@) == self@.turns,
    {
        let mut out: Vec<WaitingTurn> = Vec::new();
        let mut i: usize = 0;
        while i < self.turns.len()
            invariant
                i <= self.turns.len(),
                out.len() == i,
                forall|k: int| 0 <= k < i ==> (#[trigger] out@[k])@ == self@.turns[k],
            decreases self.turns.len() - i,
        {
            let t = &self.turns[i];
            assert(self@.turns[i as int] == turn_view(*t));
            out.push(
                WaitingTurn {
                    id: t.id,
                    file_path: t.file_path.clone(),
                    role: t.role.clone(),
                    text: t.text.clone(),
                    staged_at: t.staged_at,
                },
            );
            i = i + 1;
        }
        assert(waiting_views(out@) == self@.turns);
        out
    }

    /// The identifier of the next turn.
    pub fn next_turn(&self) -> (r: i64)
        ensures
            r == self@.next_turn,
    {
        self.next_turn
    }

    /// A graph from its parts, if they keep the integrity of its references.
    pub fn restore(
        fragments: Vec<Fragment>,
        edges: Vec<Edge>,
        watermarks: Vec<(String, i64, i64)>,
        turns: Vec<WaitingTurn>,
        next_turn: i64,
    ) -> (r: Option<Storage>)
        ensures
            ({
                let g = StorageView {
                    fragments: crate::fragment::fragment_views(fragments@),
                    edges: crate::edge::edge_views(edges@),
                    watermarks: position_map(watermarks@),
                    turns: waiting_views(turns@),
                    next_turn,
                };
                match r {
                    Some(s) => s.wf() && s@ == g,
                    None => !is_sound(g),
                }
            }),
    {
        let mut positions: Vec<Watermark> = Vec::new();
        let mut i: usize = 0;
        assert(watermark_map(positions@) == position_map(watermarks@.take(0)));
        while i < watermarks.len()
            invariant
                i <= watermarks.len(),
                watermark_map(positions@) == position_map(watermarks@.take(i as int)),
            decreases watermarks.len() - i,
        {
            let w = &watermarks[i];
            let copy = Watermark {
                file_path: w.0.clone(),
                byte_offset: w.1,
                last_processed: w.2,
            };
            proof {
                assert(watermarks@.take(i + 1).drop_last() == watermarks@.take(i as int));
                assert(watermarks@.take(i + 1).last() == w);
                assert(positions@.push(copy).drop_last() == positions@);
            }
            positions.push(copy);
            i = i + 1;
        }
        assert(watermarks@.take(i as int) == watermarks@);
        let mut own: Vec<Turn> = Vec::new();
        let mut k: usize = 0;
        while k < turns.len()
            invariant
                k <= turns.len(),
                own.len() == k,
                forall|j: int| 0 <= j < k ==> turn_view(#[trigger] own@[j]) == turns@[j]@,
            decreases turns.len() - k,
        {
            let t = &turns[k];
            own.push(
                Turn {
                    id: t.id,
                    file_path: t.file_path.clone(),
                    role: t.role.clone(),
                    text: t.text.clone(),
                    staged_at: t.staged_at,
                },
            );
            k = k + 1;
        }
        assert(turn_views(own@) == waiting_views(turns@));
        let s = Storage { fragments, edges, watermarks: positions, turns: own, next_turn };
        if s.ids_are_unique() && s.references_exist() && s.turns_are_ordered() {
            Some(s)
        } else {
            None
        }
    }

    /// Tells whether identifiers are unique.
    fn ids_are_unique(&self) -> (r: bool)
        ensures
            r == (unique_fragments(self@.fragments) && unique_edges(self@.edges)),
    {
        let ghost fs = self@.fragments;
        let ghost es = self@.edges;
        let mut i: usize = 0;
        while i < self.fragments.len()
            invariant
                i <= self.fragments.len(),
                fs == self@.fragments,
                forall|a: int, b: int|
                    0 <= a < b < fs.len() && a < i ==> (#[trigger] fs[a]).id != (
                    #[trigger] fs[b]).id,
            decreases self.fragments.len() - i,
        {
            let mut j: usize = i + 1;
            while j < self.fragments.len()
                invariant
                    i < j <= self.fragments.len(),
                    fs == self@.fragments,
                    forall|b: int| i < b < j ==> fs[i as int].id != (#[trigger] fs[b]).id,
                decreases self.fragments.len() - j,
            {
                assert(fs[i as int] == self.fragments@[i as int]@);
                assert(fs[j as int] == self.fragments@[j as int]@);
                if self.fragments[i].id == self.fragments[j].id {
                    return false;
                }
                j = j + 1;
            }
            i = i + 1;
        }
        let mut k: usize = 0;
        while k < self.edges.len()
            invariant
                k <= self.edges.len(),
                es == self@.edges,
                forall|a: int, b: int|
                    0 <= a < b < es.len() && a < k ==> (#[trigger] es[a]).id != (
                    #[trigger] es[b]).id,
            decreases self.edges.len() - k,
        {
            let mut j: usize = k + 1;
            while j < self.edges.len()
                invariant
                    k < j <= self.edges.len(),
                    es == self@.edges,
                    forall|b: int| k < b < j ==> es[k as int].id != (#[trigger] es[b]).id,
                decreases self.edges.len() - j,
            {
                assert(es[k as int] == self.edges@[k as int]@);
                assert(es[j as int] == self.edges@[j as int]@);
                if self.edges[k].id == self.edges[j].id {
                    return false;
                }
                j = j + 1;
            }
            k = k + 1;
        }
        true
    }

    /// Tells whether there is a fragment with an identifier.
    fn has_id(&self, id: FragmentId) -> (r: bool)
        ensures
            r == has_fragment(self@.fragments, id),
    {
        let mut i: usize = 0;
        while i < self.fragments.len()
            invariant
                i <= self.fragments.len(),
                forall|k: int| 0 <= k < i ==> (#[trigger] self@.fragments[k]).id != id,
            decreases self.fragments.len() - i,
        {
            assert(self@.fragments[i as int] == self.fragments@[i as int]@);
            if self.fragments[i].id == id {
                return true;
            }
            i = i + 1;
        }
        false
    }

    /// Tells whether all that is referred to exists.
    fn references_exist(&self) -> (r: bool)
        ensures
            r == (anchored(self@.fragments, self@.edges) && succession_exists(self@.fragments)),
    {
        let mut i: usize = 0;
        while i < self.edges.len()
            invariant
                i <= self.edges.len(),
                forall|k: int|
                    0 <= k < i ==> has_fragment(
                        self@.fragments,
                        (#[trigger] self@.edges[k]).source,
                    ) && has_fragment(self@.fragments, self@.edges[k].target),
            decreases self.edges.len() - i,
        {
            assert(self@.edges[i as int] == self.edges@[i as int]@);
            if !self.has_id(self.edges[i].source) || !self.has_id(self.edges[i].target) {
                return false;
            }
            i = i + 1;
        }
        let mut j: usize = 0;
        while j < self.fragments.len()
            invariant
                j <= self.fragments.len(),
                forall|k: int|
                    0 <= k < j ==> ((
                    #[trigger] self@.fragments[k]).superseded_by matches Some(s) ==> has_fragment(
                        self@.fragments,
                        s,
                    )),
            decreases self.fragments.len() - j,
        {
            assert(self@.fragments[j as int] == self.fragments@[j as int]@);
            if let Some(s) = self.fragments[j].superseded_by {
                if !self.has_id(s) {
                    return false;
                }
            }
            j = j + 1;
        }
        true
    }

    /// Tells whether the turns are in order.
    fn turns_are_ordered(&self) -> (r: bool)
        ensures
            r == turns_in_order(self@.turns, self@.next_turn),
    {
        let ghost ts = self@.turns;
        let mut i: usize = 0;
        while i < self.turns.len()
            invariant
                i <= self.turns.len(),
                ts == self@.turns,
                forall|a: int, b: int|
                    0 <= a < b < i ==> (#[trigger] ts[a]).id < (#[trigger] ts[b]).id,
                forall|a: int| 0 <= a < i ==> (#[trigger] ts[a]).id < self@.next_turn,
            decreases self.turns.len() - i,
        {
            assert(ts[i as int] == turn_view(self.turns@[i as int]));
            if self.turns[i].id >= self.next_turn {
                return false;
            }
            if i > 0 {
                assert(ts[i - 1] == turn_view(self.turns@[i - 1]));
                if self.turns[i - 1].id >= self.turns[i].id {
                    return false;
                }
                assert forall|a: int, b: int| 0 <= a < b < i + 1 implies (#[trigger] ts[a]).id < (
                #[trigger] ts[b]).id by {
                    if b == i && a < i - 1 {
                        assert(ts[a].id < ts[i - 1].id);
                    }
                }
            }
            i = i + 1;
        }
        true
    }
}

/// A turn that waits to be digested, with all that is kept of it.
#[derive(Debug, PartialEq, Eq)]
pub struct WaitingTurn {
    pub id: i64,
    pub file_path: String,
    pub role: String,
    pub text: String,
    pub staged_at: i64,
}

impl View for WaitingTurn {
    type V = TurnView;

    open spec fn view(&self) -> TurnView {
        TurnView {
            id: self.id,
            file_path: self.file_path@,
            role: self.role@,
            text: self.text@,
            staged_at: self.staged_at,
        }
    }
}

/// What the turns of a list hold.
pub open spec fn waiting_views(v: Seq<WaitingTurn>) -> Seq<TurnView> {
    Seq::new(v.len(), |i: int| v[i]@)
}

/// The reading positions of a list; a later one wins over an earlier one of the
/// same file.
pub open spec fn position_map(v: Seq<(String, i64, i64)>) -> Map<Seq<char>, (i64, i64)>
    decreases v.len(),
{
    if v.len() == 0 {
        Map::empty()
    } else {
        position_map(v.drop_last()).insert(v.last().0@, (v.last().1, v.last().2))
    }
}

// ---- laws ----

/// Turns of a log as they are read back, numbered from `next` on.
pub open spec fn numbered(new_turns: Seq<(Seq<char>, Seq<char>)>, next: i64) -> Seq<StagedTurnView> {
    Seq::new(
        new_turns.len(),
        |i: int|
            StagedTurnView { id: (next + i) as i64, role: new_turns[i].0, text: new_turns[i].1 },
    )
}

/// Turns that are staged are read back behind those that waited before, in their
/// order, and only from their own log.
pub proof fn law_staged_turns_read_back(
    turns: Seq<TurnView>,
    file_path: Seq<char>,
    new_turns: Seq<(Seq<char>, Seq<char>)>,
    next: i64,
    now: i64,
    other: Seq<char>,
)
    ensures
        staged(turns, file_path, new_turns, next, now).filter(from_file(file_path)).map_values(
            told(),
        ) == turns.filter(from_file(file_path)).map_values(told()) + numbered(new_turns, next),
        other != file_path ==> staged(turns, file_path, new_turns, next, now).filter(
            from_file(other),
        ) == turns.filter(from_file(other)),
    decreases new_turns.len(),
{
    let all = staged(turns, file_path, new_turns, next, now);
    let keep = from_file(file_path);
    reveal(Seq::filter);
    if new_turns.len() == 0 {
        assert(all == turns);
        assert(turns.filter(keep).map_values(told()) + numbered(new_turns, next) == turns.filter(
            keep,
        ).map_values(told()));
    } else {
        let fewer = new_turns.drop_last();
        let front = staged(turns, file_path, fewer, next, now);
        law_staged_turns_read_back(turns, file_path, fewer, next, now, other);
        assert(all.drop_last() == front);
        assert(all.last().file_path == file_path);
        let last = told()(all.last());
        assert(front.filter(keep).push(all.last()).map_values(told()) == front.filter(
            keep,
        ).map_values(told()).push(last));
        assert(numbered(new_turns, next) == numbered(fewer, next).push(last));
        assert(turns.filter(keep).map_values(told()) + numbered(new_turns, next) == (turns.filter(
            keep,
        ).map_values(told()) + numbered(fewer, next)).push(last));
    }
}

/// Turns of a log that were removed are gone, and those of other logs are not.
pub proof fn law_deleted_turns_are_gone(
    turns: Seq<TurnView>,
    file_path: Seq<char>,
    other: Seq<char>,
)
    ensures
        turns.filter(from_other_file(file_path)).filter(from_file(file_path)).len() == 0,
        other != file_path ==> turns.filter(from_other_file(file_path)).filter(from_file(other))
            == turns.filter(from_file(other)),
{
    let left = turns.filter(from_other_file(file_path));
    let found = left.filter(from_file(file_path));
    crate::lists::lemma_filter_members(turns, from_other_file(file_path));
    crate::lists::lemma_filter_members(left, from_file(file_path));
    if found.len() > 0 {
        let t = found[0];
        assert(from_file(file_path)(t));
        assert(left.contains(t));
        let k = choose|k: int| 0 <= k < left.len() && left[k] == t;
        assert(from_other_file(file_path)(left[k]));
    }
    if other != file_path {
        crate::query::lemma_filter_twice(turns, from_other_file(file_path), from_file(other));
    }
}

/// No boost lifts a relevance above one, and none that is not negative lowers a
/// relevance that is at most one.
pub proof fn law_boost_is_capped(relevance: i64, boost: i64)
    ensures
        boosted_relevance(relevance, boost) <= ONE,
        boost >= 0 && relevance <= ONE ==> boosted_relevance(relevance, boost) >= relevance,
{
}

/// One edge more is at most one child more: an edge of the hierarchy from a fragment to
/// an active one adds that one behind the other children, and no other edge adds any.
pub proof fn law_an_edge_makes_a_child(g: StorageView, id: FragmentId, e: EdgeView, k: int)
    requires
        unique_fragments(g.fragments),
        0 <= k < g.fragments.len(),
        g.fragments[k].id == e.target,
    ensures
        ({
            let more = StorageView { edges: g.edges.push(e), ..g };
            let child = g.fragments[k];
            &&& g.edges.len() == 0 ==> children_of(g, id).len() == 0
            &&& e.kind == EdgeKind::Hierarchical && e.source == id && child.superseded_by is None
                ==> children_of(more, id) == children_of(g, id).push(child)
            &&& e.kind != EdgeKind::Hierarchical || e.source != id || child.superseded_by is Some
                ==> children_of(more, id) == children_of(g, id)
        }),
{
    let keep = leads_to_child(g.fragments, id);
    let to = target_of(g.fragments);
    lemma_fragment_at(g.fragments, k);
    crate::lists::lemma_filter_push(g.edges, keep, e);
    if keep(e) {
        assert(g.edges.filter(keep).push(e).map_values(to) == g.edges.filter(keep).map_values(
            to,
        ).push(to(e)));
    }
    if g.edges.len() == 0 {
        crate::lists::lemma_filter_empty(g.edges, keep);
    }
}

/// The children of a fragment are the active fragments that edges of the hierarchy lead
/// to from it, and no others.
pub proof fn law_children(g: StorageView, id: FragmentId, k: int)
    requires
        unique_fragments(g.fragments),
        0 <= k < g.fragments.len(),
    ensures
        children_of(g, id).contains(g.fragments[k]) <==> (g.fragments[k].superseded_by is None
            && exists|i: int|
            0 <= i < g.edges.len() && (#[trigger] g.edges[i]).source == id && g.edges[i].target
                == g.fragments[k].id && g.edges[i].kind == EdgeKind::Hierarchical),
        forall|c: int|
            0 <= c < children_of(g, id).len() ==> g.fragments.contains(
                #[trigger] children_of(g, id)[c],
            ),
{
    let keep = leads_to_child(g.fragments, id);
    let to = target_of(g.fragments);
    let kept = g.edges.filter(keep);
    let all = children_of(g, id);
    crate::lists::lemma_filter_members(g.edges, keep);
    lemma_fragment_at(g.fragments, k);
    assert forall|c: int| 0 <= c < all.len() implies g.fragments.contains(#[trigger] all[c]) by {
        assert(keep(kept[c]));
        let at = choose|at: int|
            0 <= at < g.fragments.len() && (#[trigger] g.fragments[at]).id == kept[c].target;
        lemma_fragment_at(g.fragments, at);
        assert(all[c] == g.fragments[at]);
    }
    if all.contains(g.fragments[k]) {
        let c = choose|c: int| 0 <= c < all.len() && all[c] == g.fragments[k];
        assert(keep(kept[c]) && g.edges.contains(kept[c]));
        let at = choose|at: int|
            0 <= at < g.fragments.len() && (#[trigger] g.fragments[at]).id == kept[c].target;
        lemma_fragment_at(g.fragments, at);
        let i = choose|i: int| 0 <= i < g.edges.len() && g.edges[i] == kept[c];
        assert(g.edges[i].target == g.fragments[k].id);
    }
    if g.fragments[k].superseded_by is None && exists|i: int|
        0 <= i < g.edges.len() && (#[trigger] g.edges[i]).source == id && g.edges[i].target
            == g.fragments[k].id && g.edges[i].kind == EdgeKind::Hierarchical {
        let i = choose|i: int|
            0 <= i < g.edges.len() && (#[trigger] g.edges[i]).source == id && g.edges[i].target
                == g.fragments[k].id && g.edges[i].kind == EdgeKind::Hierarchical;
        assert(keep(g.edges[i]));
        let c = choose|c: int| 0 <= c < kept.len() && kept[c] == g.edges[i];
        assert(all[c] == g.fragments[k]);
    }
}

/// The parent of a fragment is where the oldest edge of the hierarchy to it comes from:
/// without such an edge there is none, the first one makes one, and no later one changes
/// it.
pub proof fn law_the_oldest_edge_makes_the_parent(
    g: StorageView,
    id: FragmentId,
    e: EdgeView,
    k: int,
)
    requires
        unique_fragments(g.fragments),
        0 <= k < g.fragments.len(),
        g.fragments[k].id == e.source,
    ensures
        ({
            let more = StorageView { edges: g.edges.push(e), ..g };
            let has_one = exists|i: int|
                0 <= i < g.edges.len() && (#[trigger] g.edges[i]).target == id && g.edges[i].kind
                    == EdgeKind::Hierarchical;
            &&& !has_one ==> parent_of(g, id) is None
            &&& !has_one && e.kind == EdgeKind::Hierarchical && e.target == id ==> parent_of(
                more,
                id,
            ) == Some(g.fragments[k])
            &&& has_one || e.kind != EdgeKind::Hierarchical || e.target != id ==> parent_of(
                more,
                id,
            ) == parent_of(g, id)
        }),
{
    let keep = leads_from_parent(id);
    let up = g.edges.filter(keep);
    crate::lists::lemma_filter_push(g.edges, keep, e);
    crate::lists::lemma_filter_members(g.edges, keep);
    lemma_fragment_at(g.fragments, k);
    if exists|i: int|
        0 <= i < g.edges.len() && (#[trigger] g.edges[i]).target == id && g.edges[i].kind
            == EdgeKind::Hierarchical {
        let i = choose|i: int|
            0 <= i < g.edges.len() && (#[trigger] g.edges[i]).target == id && g.edges[i].kind
                == EdgeKind::Hierarchical;
        assert(keep(g.edges[i]));
        assert(up.contains(g.edges[i]));
        assert(g.edges.push(e).filter(keep)[0] == up[0]);
    } else {
        assert forall|i: int| 0 <= i < g.edges.len() implies !keep(#[trigger] g.edges[i]) by {
        }
        crate::lists::lemma_filter_empty(g.edges, keep);
    }
}

/// One edge more is at most one association more: an associative edge between a fragment
/// and another active one, whichever way it leads, adds that one behind the others, and
/// no other edge adds any.
pub proof fn law_an_edge_makes_an_association(g: StorageView, id: FragmentId, e: EdgeView, k: int)
    requires
        unique_fragments(g.fragments),
        0 <= k < g.fragments.len(),
        (e.source == id && e.target == g.fragments[k].id) || (e.target == id && e.source
            == g.fragments[k].id) || (e.source != id && e.target != id),
    ensures
        ({
            let more = StorageView { edges: g.edges.push(e), ..g };
            let other = g.fragments[k];
            let between = e.source == id || e.target == id;
            &&& g.edges.len() == 0 ==> associations_of(g, id).len() == 0
            &&& e.kind == EdgeKind::Associative && between && other.id != id && other.superseded_by
                is None ==> associations_of(more, id) == associations_of(g, id).push(other)
            &&& e.kind != EdgeKind::Associative || !between || other.id == id
                || other.superseded_by is Some ==> associations_of(more, id) == associations_of(
                g,
                id,
            )
        }),
{
    let keep = associates(g.fragments, id);
    let to = other_of(g.fragments, id);
    lemma_fragment_at(g.fragments, k);
    crate::lists::lemma_filter_push(g.edges, keep, e);
    if keep(e) {
        assert(g.edges.filter(keep).push(e).map_values(to) == g.edges.filter(keep).map_values(
            to,
        ).push(to(e)));
    }
    if g.edges.len() == 0 {
        crate::lists::lemma_filter_empty(g.edges, keep);
    }
}

/// What a change by identifier does: it changes the fragment with that identifier as it
/// says, and no other one. An access counts one more and sets its time; reinforcement
/// also sets the relevance and starts the decay anew; new content keeps the embedding
/// unless there is a new one; a fragment that is superseded names its successor.
pub proof fn law_changes_are_local(
    fs: Seq<FragmentView>,
    id: FragmentId,
    now: i64,
    value: i64,
    content: Seq<char>,
    summary: Seq<char>,
    embedding: Seq<i32>,
    new: FragmentId,
    k: int,
)
    requires
        0 <= k < fs.len(),
    ensures
        ({
            let f = fs[k];
            let count = if f.access_count == u32::MAX {
                u32::MAX
            } else {
                (f.access_count + 1) as u32
            };
            &&& f.id != id ==> {
                &&& updated(fs, id, touched(now))[k] == f
                &&& updated(fs, id, reinforced(now, value))[k] == f
                &&& updated(fs, id, boosted(value, now))[k] == f
                &&& updated(fs, id, rewritten(content, summary, None, now))[k] == f
                &&& updated(fs, id, rewritten(content, summary, Some(embedding), now))[k] == f
                &&& updated(fs, id, superseded(new))[k] == f
            }
            &&& f.id == id ==> {
                &&& updated(fs, id, touched(now))[k] == (FragmentView {
                    access_count: count,
                    last_accessed: now,
                    ..f
                })
                &&& updated(fs, id, reinforced(now, value))[k] == (FragmentView {
                    access_count: count,
                    last_accessed: now,
                    last_reinforced: now,
                    relevance_score: value,
                    ..f
                })
                &&& updated(fs, id, rewritten(content, summary, None, now))[k] == (FragmentView {
                    content,
                    summary,
                    last_accessed: now,
                    ..f
                })
                &&& updated(fs, id, rewritten(content, summary, Some(embedding), now))[k] == (
                FragmentView { content, summary, embedding, last_accessed: now, ..f })
                &&& updated(fs, id, superseded(new))[k] == (FragmentView {
                    superseded_by: Some(new),
                    ..f
                })
            }
        }),
{
}

/// A boost reaches active fragments alone. It adds to the relevance, up to one, and sets
/// the time of the last access, but is not counted as one.
pub proof fn law_boost(fs: Seq<FragmentView>, boost: i64, now: i64, k: int)
    requires
        0 <= k < fs.len(),
        0 <= boost <= 1_000_000_000,
        0 <= fs[k].relevance_score <= 1_000_000_000,
    ensures
        ({
            let f = fs[k];
            let after = updated(fs, f.id, boosted(boost, now))[k];
            &&& f.superseded_by is Some ==> after == f
            &&& f.superseded_by is None ==> {
                &&& after == (FragmentView {
                    relevance_score: after.relevance_score,
                    last_accessed: now,
                    ..f
                })
                &&& f.relevance_score + boost <= 1_000_000_000 ==> after.relevance_score
                    == f.relevance_score + boost
                &&& f.relevance_score + boost > 1_000_000_000 ==> after.relevance_score
                    == 1_000_000_000
            }
        }),
{
}

/// What is selected: by depth and by embedding only active fragments, by the beginning
/// of the identifier all of them; for forgetting those below the roots that are less
/// relevant than a bound and older than an age.
pub proof fn law_selections(
    f: FragmentView,
    depth: u32,
    prefix: Seq<char>,
    max_relevance: i64,
    min_age_secs: i64,
    now: i64,
)
    ensures
        at_depth(depth)(f) <==> f.superseded_by is None && f.depth == depth,
        embedded(None)(f) <==> f.superseded_by is None && f.embedding.len() > 0,
        embedded(Some(depth))(f) <==> f.superseded_by is None && f.embedding.len() > 0 && f.depth
            == depth,
        forgettable(max_relevance, min_age_secs, now)(f) <==> f.superseded_by is None && f.depth
            >= 1 && f.relevance_score < max_relevance && now - f.created_at > min_age_secs,
        with_prefix(prefix)(f) <==> prefix.len() <= crate::fragment::uuid_text(f.id.0).len()
            && crate::fragment::uuid_text(f.id.0).take(prefix.len() as int) == prefix,
        active()(f) <==> f.superseded_by is None,
{
}

/// What was superseded by a fragment that is removed is passed on: to the successor of
/// that one if it has one, and otherwise it is active again. Nothing else of it changes.
pub proof fn law_removal_passes_on(g: StorageView, i: int, k: int)
    requires
        unique_fragments(g.fragments),
        0 <= i < g.fragments.len(),
        0 <= k < g.fragments.len(),
        i != k,
    ensures
        ({
            let gone = g.fragments[i];
            let f = g.fragments[k];
            let after = without(g, gone.id).fragments;
            &&& f.superseded_by != Some(gone.id) ==> after.contains(f)
            &&& f.superseded_by == Some(gone.id) && gone.superseded_by != Some(gone.id)
                ==> after.contains(FragmentView { superseded_by: gone.superseded_by, ..f })
            &&& f.superseded_by == Some(gone.id) && gone.superseded_by == Some(gone.id)
                ==> after.contains(FragmentView { superseded_by: None, ..f })
        }),
{
    let gone = g.fragments[i];
    let f = g.fragments[k];
    let keep = other_than(gone.id);
    let to = released(gone.id, heir(g.fragments, gone.id));
    let kept = g.fragments.filter(keep);
    crate::lists::lemma_filter_members(g.fragments, keep);
    lemma_fragment_at(g.fragments, i);
    if i < k {
        assert(g.fragments[i].id != g.fragments[k].id);
    } else {
        assert(g.fragments[k].id != g.fragments[i].id);
    }
    assert(keep(g.fragments[k]));
    let c = choose|c: int| 0 <= c < kept.len() && kept[c] == f;
    assert(kept.map_values(to)[c] == to(f));
}

/// Edges that are faded, reweighted or cut: fading multiplies the weights of one kind,
/// a new weight is given to one edge, a cut removes the edges of a kind from one fragment
/// to another, and what is weak is what is lighter than the bound.
pub proof fn law_edges_change(
    es: Seq<EdgeView>,
    k: int,
    kind: EdgeKind,
    factor: i64,
    id: EdgeId,
    source: FragmentId,
    target: FragmentId,
)
    requires
        0 <= k < es.len(),
    ensures
        ({
            let e = es[k];
            &&& e.kind != kind ==> decayed(es, kind, factor)[k] == e
            &&& e.kind == kind && 0 <= e.weight <= 1_000_000_000 && 0 <= factor <= 1_000_000_000
                ==> {
                let after = decayed(es, kind, factor)[k];
                &&& after == (EdgeView { weight: after.weight, ..e })
                &&& after.weight * 1_000_000_000 <= e.weight * factor < (after.weight + 1)
                    * 1_000_000_000
            }
            &&& e.id != id ==> reweighted(es, id, factor)[k] == e
            &&& e.id == id ==> reweighted(es, id, factor)[k] == (EdgeView { weight: factor, ..e })
            &&& not_weak(kind, factor)(e) <==> e.kind != kind || e.weight >= factor
            &&& not_between(source, target, kind)(e) <==> e.source != source || e.target != target
                || e.kind != kind
        }),
{
    let e = es[k];
    if e.kind == kind && 0 <= e.weight <= 1_000_000_000 && 0 <= factor <= 1_000_000_000 {
        let p = e.weight * factor;
        assert(0 <= p <= 1_000_000_000_000_000_000) by (nonlinear_arith)
            requires
                p == e.weight * factor,
                0 <= e.weight <= 1_000_000_000,
                0 <= factor <= 1_000_000_000,
        ;
    }
}

proof fn lemma_sessions(turns: Seq<TurnView>)
    ensures
        distinct_sessions(sessions_of(turns)),
        forall|k: int|
            0 <= k < sessions_of(turns).len() ==> is_session_of(
                turns,
                #[trigger] sessions_of(turns)[k],
            ),
        forall|i: int|
            0 <= i < turns.len() ==> has_session(
                sessions_of(turns),
                (#[trigger] turns[i]).file_path,
            ),
    decreases turns.len(),
{
    reveal(Seq::filter);
    if turns.len() > 0 {
        let front = turns.drop_last();
        let t = turns.last();
        lemma_sessions(front);
        let before = sessions_of(front);
        let after = sessions_of(turns);
        assert(after == with_turn(before, t));
        if !has_session(before, t.file_path) {
            assert forall|i: int| 0 <= i < front.len() implies !from_file(t.file_path)(
                #[trigger] front[i],
            ) by {
                assert(has_session(before, front[i].file_path));
            }
            crate::lists::lemma_filter_empty(front, from_file(t.file_path));
        }
        assert forall|k: int| 0 <= k < after.len() implies is_session_of(
            turns,
            #[trigger] after[k],
        ) by {
            let s = after[k];
            if k < before.len() {
                let old_one = before[k];
                assert(is_session_of(front, old_one));
                let m = choose|m: int|
                    0 <= m < front.len() && (#[trigger] front[m]).file_path == old_one.file_path
                        && front[m].staged_at == old_one.last_staged;
                assert(turns[m] == front[m]);
                assert(turns[turns.len() - 1] == t);
                assert forall|i: int|
                    0 <= i < turns.len() && (#[trigger] turns[i]).file_path
                        == s.file_path implies turns[i].staged_at <= s.last_staged by {
                    if i < front.len() {
                        assert(front[i] == turns[i]);
                    }
                }
            } else {
                assert(turns[turns.len() - 1] == t);
                assert forall|i: int|
                    0 <= i < turns.len() && (#[trigger] turns[i]).file_path
                        == s.file_path implies turns[i].staged_at <= s.last_staged by {
                    if i < front.len() {
                        assert(has_session(before, front[i].file_path));
                    }
                }
            }
        }
        assert forall|i: int| 0 <= i < turns.len() implies has_session(
            after,
            (#[trigger] turns[i]).file_path,
        ) by {
            if i < front.len() {
                assert(has_session(before, front[i].file_path));
                let k = choose|k: int|
                    0 <= k < before.len() && (#[trigger] before[k]).file_path == turns[i].file_path;
                assert(after[k].file_path == turns[i].file_path);
            } else if has_session(before, t.file_path) {
                let k = choose|k: int|
                    0 <= k < before.len() && (#[trigger] before[k]).file_path == t.file_path;
                assert(after[k].file_path == t.file_path);
            } else {
                assert(after[before.len() as int].file_path == t.file_path);
            }
        }
        assert forall|i: int, j: int| 0 <= i < j < after.len() implies (
        #[trigger] after[i]).file_path != (#[trigger] after[j]).file_path by {
            if j < before.len() {
                assert(before[i].file_path != before[j].file_path);
            } else {
                assert(before[i].file_path != t.file_path);
            }
        }
    }
}

/// A list of sessions holds one of a log.
pub open spec fn has_session(sessions: Seq<SessionView>, file_path: Seq<char>) -> bool {
    exists|k: int| 0 <= k < sessions.len() && (#[trigger] sessions[k]).file_path == file_path
}

/// What a session tells of the turns of its log: how many wait, and when the latest of
/// them came.
pub open spec fn is_session_of(turns: Seq<TurnView>, s: SessionView) -> bool {
    &&& s.turn_count == turns.filter(|t: TurnView| t.file_path == s.file_path).len()
    &&& exists|i: int|
        0 <= i < turns.len() && (#[trigger] turns[i]).file_path == s.file_path && turns[i].staged_at
            == s.last_staged
    &&& forall|i: int|
        0 <= i < turns.len() && (#[trigger] turns[i]).file_path == s.file_path
            ==> turns[i].staged_at <= s.last_staged
}

/// The sessions that are ready for digestion: those all of whose turns are older than
/// the threshold, each of them once, with the number of its turns and the time of the
/// latest, and the one that has waited longest first.
pub proof fn law_idle_sessions(turns: Seq<TurnView>, idle_threshold_secs: i64, now: i64)
    ensures
        ({
            let idle = idle_sessions(turns, idle_threshold_secs, now);
            &&& forall|k: int| 0 <= k < idle.len() ==> is_session_of(turns, #[trigger] idle[k])
            &&& forall|k: int|
                0 <= k < idle.len() ==> (#[trigger] idle[k]).last_staged < now
                    - idle_threshold_secs
            &&& forall|i: int, j: int|
                0 <= i < j < idle.len() ==> (#[trigger] idle[i]).file_path != (
                #[trigger] idle[j]).file_path && idle[i].last_staged <= idle[j].last_staged
            &&& forall|i: int|
                0 <= i < turns.len() && (forall|j: int|
                    0 <= j < turns.len() && (#[trigger] turns[j]).file_path == turns[i].file_path
                        ==> turns[j].staged_at < now - idle_threshold_secs) ==> has_session(
                    idle,
                    (#[trigger] turns[i]).file_path,
                )
        }),
{
    let all = sessions_of(turns);
    let keep = is_idle(idle_threshold_secs, now);
    let some = all.filter(keep);
    let keys = age_keys(some);
    let idle = idle_sessions(turns, idle_threshold_secs, now);
    lemma_sessions(turns);
    crate::lists::lemma_filter_members(all, keep);
    lemma_sessions_kept(all, keep);
    crate::lists::law_ranking(keys);
    let order = crate::lists::ranking(keys);
    assert forall|k: int| 0 <= k < idle.len() implies is_session_of(turns, #[trigger] idle[k])
        && idle[k].last_staged < now - idle_threshold_secs by {
        let s = some[order[k]];
        assert(idle[k] == s);
        assert(keep(s) && all.contains(s));
        let m = choose|m: int| 0 <= m < all.len() && all[m] == s;
        assert(is_session_of(turns, all[m]));
    }
    assert forall|i: int, j: int| 0 <= i < j < idle.len() implies (#[trigger] idle[i]).file_path
        != (#[trigger] idle[j]).file_path && idle[i].last_staged <= idle[j].last_staged by {
        let (a, b) = (order[i], order[j]);
        assert(idle[i] == some[a] && idle[j] == some[b]);
        assert(a != b);
        assert(keys[a] >= keys[b]);
        if a < b {
            assert(some[a].file_path != some[b].file_path);
        } else {
            assert(some[b].file_path != some[a].file_path);
        }
    }
    assert forall|i: int|
        0 <= i < turns.len() && (forall|j: int|
            0 <= j < turns.len() && (#[trigger] turns[j]).file_path == turns[i].file_path
                ==> turns[j].staged_at < now - idle_threshold_secs) implies has_session(
        idle,
        (#[trigger] turns[i]).file_path,
    ) by {
        assert(has_session(all, turns[i].file_path));
        let m = choose|m: int|
            0 <= m < all.len() && (#[trigger] all[m]).file_path == turns[i].file_path;
        assert(is_session_of(turns, all[m]));
        assert(keep(all[m]));
        let c = choose|c: int| 0 <= c < some.len() && some[c] == all[m];
        assert(order.contains(c));
        let r = choose|r: int| 0 <= r < order.len() && order[r] == c;
        assert(idle[r].file_path == turns[i].file_path);
    }
}

proof fn lemma_sessions_kept(all: Seq<SessionView>, keep: spec_fn(SessionView) -> bool)
    requires
        distinct_sessions(all),
    ensures
        distinct_sessions(all.filter(keep)),
    decreases all.len(),
{
    reveal(Seq::filter);
    if all.len() > 0 {
        let front = all.drop_last();
        assert forall|i: int, j: int| 0 <= i < j < front.len() implies (
        #[trigger] front[i]).file_path != (#[trigger] front[j]).file_path by {
            assert(all[i].file_path != all[j].file_path);
        }
        lemma_sessions_kept(front, keep);
        crate::lists::lemma_filter_members(front, keep);
        let kept = front.filter(keep);
        let some = all.filter(keep);
        assert forall|i: int, j: int| 0 <= i < j < some.len() implies (
        #[trigger] some[i]).file_path != (#[trigger] some[j]).file_path by {
            if j < kept.len() {
                assert(kept[i].file_path != kept[j].file_path);
            } else {
                assert(front.contains(kept[i]));
                let m = choose|m: int| 0 <= m < front.len() && front[m] == kept[i];
                assert(all[m].file_path != all[all.len() - 1].file_path);
            }
        }
    }
}

/// Staged turns wait behind those that waited before: each with its role and text, the
/// log it is of, the time it was staged at, and a number of its own.
pub proof fn law_staged_turns_wait(
    turns: Seq<TurnView>,
    file_path: Seq<char>,
    new_turns: Seq<(Seq<char>, Seq<char>)>,
    next: i64,
    now: i64,
)
    requires
        next + new_turns.len() <= i64::MAX,
    ensures
        ({
            let after = staged(turns, file_path, new_turns, next, now);
            &&& after.len() == turns.len() + new_turns.len()
            &&& after.take(turns.len() as int) == turns
            &&& forall|i: int|
                0 <= i < new_turns.len() ==> (#[trigger] after[turns.len() + i]) == (TurnView {
                    id: (next + i) as i64,
                    file_path,
                    role: new_turns[i].0,
                    text: new_turns[i].1,
                    staged_at: now,
                })
        }),
{
}

/// What is told of an operation that would break the graph: an identifier that is taken
/// is refused before a reference that is missing, and everything else is done.
pub proof fn law_refusals(
    g: StorageView,
    f: FragmentView,
    e: EdgeView,
    old_id: FragmentId,
    new_id: FragmentId,
)
    ensures
        insert_fragment_result(g, f) == Err::<(), StorageError>(StorageError::DuplicateId)
            <==> exists|i: int| 0 <= i < g.fragments.len() && (#[trigger] g.fragments[i]).id == f.id,
        insert_edge_result(g, e) == Err::<(), StorageError>(StorageError::DuplicateId)
            <==> exists|i: int| 0 <= i < g.edges.len() && (#[trigger] g.edges[i]).id == e.id,
        insert_edge_result(g, e) is Ok <==> (forall|i: int|
            0 <= i < g.edges.len() ==> (#[trigger] g.edges[i]).id != e.id) && (exists|i: int|
            0 <= i < g.fragments.len() && (#[trigger] g.fragments[i]).id == e.source) && (exists|
            i: int,
        |
            0 <= i < g.fragments.len() && (#[trigger] g.fragments[i]).id == e.target),
        supersede_result(g, old_id, new_id) is Err <==> (exists|i: int|
            0 <= i < g.fragments.len() && (#[trigger] g.fragments[i]).id == old_id) && (forall|
            i: int,
        |
            0 <= i < g.fragments.len() ==> (#[trigger] g.fragments[i]).id != new_id),
{
}

/// A reading position that comes later replaces the one of the same file, and leaves all
/// others as they are.
pub proof fn law_positions(v: Seq<(String, i64, i64)>, p: (String, i64, i64), other: Seq<char>)
    ensures
        ({
            let before = position_map(v);
            let after = position_map(v.push(p));
            &&& after.dom().contains(p.0@) && after[p.0@] == (p.1, p.2)
            &&& other != p.0@ ==> (after.dom().contains(other) <==> before.dom().contains(other))
            &&& other != p.0@ && before.dom().contains(other) ==> after[other] == before[other]
        }),
{
    assert(v.push(p).drop_last() == v);
}

/// A fragment is added where its identifier is new and what supersedes it, if anything,
/// is there or is itself.
pub proof fn law_what_can_be_added(g: StorageView, f: FragmentView)
    ensures
        insert_fragment_result(g, f) is Ok <==> (forall|i: int|
            0 <= i < g.fragments.len() ==> (#[trigger] g.fragments[i]).id != f.id) && (
        f.superseded_by matches Some(s) ==> s == f.id || exists|i: int|
            0 <= i < g.fragments.len() && (#[trigger] g.fragments[i]).id == s),
{
}

} // verus!
