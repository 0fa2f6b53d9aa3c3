//! The explorer: searching the memory level by level.

use vstd::prelude::*;

use crate::embedding::cosine_similarity;
use crate::fixed::multiply;
use crate::fragment::{Fragment, FragmentId, ScoredFragment};
#[allow(unused_imports)]
use crate::fragment::{FragmentView, ScoredView};
use crate::query::{match_text, take_best, LoreDb};
use crate::relevance::{blend, MIN_RELEVANCE_THRESHOLD};
#[allow(unused_imports)]
use crate::storage::StorageView;
use crate::text::{count_bytes, decimal_text, is_blank, take_chars, to_chars, to_lowercase};

verus! {

/// The most results of a search.
pub const TOP_N: usize = 10;

/// The share of relevance in the score of a fragment without an embedding.
pub const RELEVANCE_SHARE: i64 = 300_000_000;

/// The most characters of a result that is not expanded.
pub const PREVIEW_LENGTH: usize = 200;

/// What to search for: all roots for an empty query; among the roots where there
/// are no parents, among the children of the parents otherwise.
#[derive(Debug)]
pub struct SearchRequest {
    pub query: String,
    pub parent_ids: Vec<FragmentId>,
}

/// A result of a search.
#[derive(Debug)]
pub struct ResultEntry {
    pub id: FragmentId,
    pub content: String,
    pub depth: u32,
    pub score: i64,
    pub children_count: usize,
}

/// What a result holds.
#[verifier::ext_equal]
pub struct EntryView {
    pub id: FragmentId,
    pub content: Seq<char>,
    pub depth: u32,
    pub score: i64,
    pub children_count: nat,
}

impl View for ResultEntry {
    type V = EntryView;

    open spec fn view(&self) -> EntryView {
        EntryView {
            id: self.id,
            content: self.content@,
            depth: self.depth,
            score: self.score,
            children_count: self.children_count as nat,
        }
    }
}

/// What the results of a list hold.
pub open spec fn entry_views(v: Seq<ResultEntry>) -> Seq<EntryView> {
    Seq::new(v.len(), |i: int| v[i]@)
}

// ---- searching ----

/// A scored fragment as a result.
pub open spec fn entry_of(g: StorageView) -> spec_fn(ScoredView) -> EntryView {
    |s: ScoredView|
        EntryView {
            id: s.fragment.id,
            content: s.fragment.content,
            depth: s.fragment.depth,
            score: s.score,
            children_count: crate::storage::children_of(g, s.fragment.id).len(),
        }
}

/// The score of a child: by embedding as far as there is one, by text otherwise.
pub open spec fn child_score(f: FragmentView, query: Seq<char>, embedding: Option<Seq<i32>>) -> i64 {
    match embedding {
        Some(e) => if f.embedding.len() > 0 {
            crate::relevance::blended(
                crate::embedding::similarity(e, f.embedding),
                f.relevance_score as int,
            )
        } else {
            crate::fixed::product(f.relevance_score as int, RELEVANCE_SHARE as int)
        },
        None => match crate::query::text_match(
            crate::text::lowercase(query),
            crate::text::lowercase(f.content),
            Seq::empty(),
        ) {
            Some(m) => m,
            None => 0,
        },
    }
}

/// The children with a positive score that have not faded out of sight.
pub open spec fn scored_children(
    children: Seq<FragmentView>,
    query: Seq<char>,
    embedding: Option<Seq<i32>>,
) -> Seq<ScoredView>
    decreases children.len(),
{
    if children.len() == 0 {
        Seq::empty()
    } else {
        let rest = scored_children(children.drop_last(), query, embedding);
        let score = child_score(children.last(), query, embedding);
        if score > 0 && children.last().relevance_score > MIN_RELEVANCE_THRESHOLD {
            rest.push(ScoredView { fragment: children.last(), score })
        } else {
            rest
        }
    }
}

/// The children of all parents with a positive score that have not faded out of
/// sight.
pub open spec fn scored_below(
    g: StorageView,
    parents: Seq<FragmentId>,
    query: Seq<char>,
    embedding: Option<Seq<i32>>,
) -> Seq<ScoredView>
    decreases parents.len(),
{
    if parents.len() == 0 {
        Seq::empty()
    } else {
        scored_below(g, parents.drop_last(), query, embedding) + scored_children(
            crate::storage::children_of(g, parents.last()),
            query,
            embedding,
        )
    }
}

/// Roots with their relevance for scores.
pub open spec fn roots_by_relevance(roots: Seq<FragmentView>) -> Seq<ScoredView> {
    Seq::new(
        roots.len(),
        |i: int| ScoredView { fragment: roots[i], score: roots[i].relevance_score },
    )
}

/// What a request finds.
pub open spec fn found(
    g: StorageView,
    query: Seq<char>,
    parents: Seq<FragmentId>,
    embedding: Option<Seq<i32>>,
) -> Seq<ScoredView> {
    if parents.len() > 0 {
        crate::query::best(scored_below(g, parents, query, embedding), TOP_N as int)
    } else if query.len() == 0 {
        roots_by_relevance(crate::lists::first_items(crate::query::roots_of(g), TOP_N as int))
    } else {
        crate::query::query_hits(g, query, embedding, 0, TOP_N as int)
    }
}

/// What a request recalls: only a search among the roots does.
pub open spec fn recalls(query: Seq<char>, parents: Seq<FragmentId>) -> bool {
    parents.len() == 0 && query.len() > 0
}

/// The graph after a request.
pub open spec fn after_search(
    g: StorageView,
    query: Seq<char>,
    parents: Seq<FragmentId>,
    embedding: Option<Seq<i32>>,
    now: i64,
) -> StorageView {
    if recalls(query, parents) {
        crate::query::all_recalled(g, found(g, query, parents, embedding), now)
    } else {
        g
    }
}

/// Scores a child.
fn score_child(f: &Fragment, query: &str, lower: &str, embedding: Option<&Vec<i32>>) -> (r: i64)
    requires
        lower@ == crate::text::lowercase(query@),
    ensures
        r == child_score(f@, query@, crate::storage::numbers_view(embedding)),
{
    match embedding {
        Some(e) => {
            if f.embedding.len() > 0 {
                blend(cosine_similarity(e, &f.embedding), f.relevance_score)
            } else {
                multiply(f.relevance_score, RELEVANCE_SHARE)
            }
        },
        None => {
            let content = to_lowercase(f.content.as_str());
            let none: String = String::new();
            match match_text(lower, content.as_str(), none.as_str()) {
                Some(m) => m,
                None => 0,
            }
        },
    }
}

/// Scores the children of parents.
fn score_below(
    db: &LoreDb,
    parents: &Vec<FragmentId>,
    query: &str,
    embedding: Option<&Vec<i32>>,
) -> (r: Vec<ScoredFragment>)
    requires
        db.wf(),
    ensures
        crate::fragment::scored_views(r@) == scored_below(
            db@,
            parents@,
            query@,
            crate::storage::numbers_view(embedding),
        ),
{
    let ghost e = crate::storage::numbers_view(embedding);
    let lower = to_lowercase(query);
    let mut out: Vec<ScoredFragment> = Vec::new();
    let mut i: usize = 0;
    assert(crate::fragment::scored_views(out@) == scored_below(db@, parents@.take(0), query@, e));
    while i < parents.len()
        invariant
            db.wf(),
            i <= parents.len(),
            e == crate::storage::numbers_view(embedding),
            lower@ == crate::text::lowercase(query@),
            crate::fragment::scored_views(out@) == scored_below(
                db@,
                parents@.take(i as int),
                query@,
                e,
            ),
        decreases parents.len() - i,
    {
        let children = db.children(parents[i]);
        let ghost fs = crate::fragment::fragment_views(children@);
        let ghost so_far = crate::fragment::scored_views(out@);
        proof {
            assert(parents@.take(i + 1).drop_last() == parents@.take(i as int));
            assert(parents@.take(i + 1).last() == parents@[i as int]);
            assert(so_far + scored_children(fs.take(0), query@, e) == so_far);
        }
        let mut k: usize = 0;
        while k < children.len()
            invariant
                k <= children.len(),
                fs == crate::fragment::fragment_views(children@),
                e == crate::storage::numbers_view(embedding),
                lower@ == crate::text::lowercase(query@),
                crate::fragment::scored_views(out@) == so_far + scored_children(
                    fs.take(k as int),
                    query@,
                    e,
                ),
            decreases children.len() - k,
        {
            let f = &children[k];
            proof {
                assert(fs.take(k + 1).drop_last() == fs.take(k as int));
                assert(fs.take(k + 1).last() == f@);
            }
            let score: i64 = score_child(f, query, lower.as_str(), embedding);
            if score > 0 && f.relevance_score > MIN_RELEVANCE_THRESHOLD {
                let s = ScoredFragment { fragment: f.clone(), score };
                proof {
                    let seen = scored_children(fs.take(k as int), query@, e);
                    assert(crate::fragment::scored_views(out@.push(s))
                        == crate::fragment::scored_views(out@).push(s@));
                    assert((so_far + seen).push(s@) == so_far + seen.push(s@));
                }
                out.push(s);
            }
            k = k + 1;
        }
        assert(fs.take(k as int) == fs);
        i = i + 1;
    }
    assert(parents@.take(i as int) == parents@);
    out
}

/// Turns scored fragments into results.
fn to_entries(db: &LoreDb, scored: &Vec<ScoredFragment>) -> (r: Vec<ResultEntry>)
    requires
        db.wf(),
    ensures
        entry_views(r@) == crate::fragment::scored_views(scored@).map_values(entry_of(db@)),
{
    let ghost all = crate::fragment::scored_views(scored@);
    let mut out: Vec<ResultEntry> = Vec::new();
    let mut i: usize = 0;
    while i < scored.len()
        invariant
            db.wf(),
            i <= scored.len(),
            all == crate::fragment::scored_views(scored@),
            out.len() == i,
            forall|k: int| 0 <= k < i ==> (#[trigger] out@[k])@ == entry_of(db@)(all[k]),
        decreases scored.len() - i,
    {
        let s = &scored[i];
        assert(all[i as int] == s@);
        let children = db.children(s.fragment.id);
        assert(crate::fragment::fragment_views(children@).len() == children.len());
        out.push(
            ResultEntry {
                id: s.fragment.id,
                content: s.fragment.content.clone(),
                depth: s.fragment.depth,
                score: s.score,
                children_count: children.len(),
            },
        );
        i = i + 1;
    }
    assert(entry_views(out@) == all.map_values(entry_of(db@)));
    out
}

/// Does a search, as of a given time.
pub fn run_search(
    db: &mut LoreDb,
    request: &SearchRequest,
    embedding: Option<&Vec<i32>>,
    now: i64,
) -> (r: Vec<ResultEntry>)
    requires
        old(db).wf(),
    ensures
        final(db).wf(),
        ({
            let e = crate::storage::numbers_view(embedding);
            &&& final(db)@ == after_search(
                old(db)@,
                request.query@,
                request.parent_ids@,
                e,
                now,
            )
            &&& entry_views(r@) == found(
                old(db)@,
                request.query@,
                request.parent_ids@,
                e,
            ).map_values(entry_of(final(db)@))
        }),
{
    if request.parent_ids.len() > 0 {
        let scored = score_below(db, &request.parent_ids, request.query.as_str(), embedding);
        let top = take_best(&scored, TOP_N);
        return to_entries(db, &top);
    }
    if request.query.as_str().is_empty() {
        let roots = db.list_roots(Some(TOP_N));
        let ghost fs = crate::fragment::fragment_views(roots@);
        let mut scored: Vec<ScoredFragment> = Vec::new();
        let mut i: usize = 0;
        while i < roots.len()
            invariant
                i <= roots.len(),
                fs == crate::fragment::fragment_views(roots@),
                scored.len() == i,
                forall|k: int|
                    0 <= k < i ==> (#[trigger] scored@[k])@ == roots_by_relevance(fs)[k],
            decreases roots.len() - i,
        {
            assert(fs[i as int] == roots@[i as int]@);
            scored.push(
                ScoredFragment { fragment: roots[i].clone(), score: roots[i].relevance_score },
            );
            i = i + 1;
        }
        assert(crate::fragment::scored_views(scored@) == roots_by_relevance(fs));
        return to_entries(db, &scored);
    }
    let hits = db.query_at(request.query.as_str(), embedding, 0, TOP_N, now);
    to_entries(db, &hits)
}

// ---- the window ----

/// What the explorer shows.
#[derive(Debug)]
pub struct ExplorerState {
    pub query: String,
    pub results: Vec<ResultEntry>,
    /// How many searches led here from the roots.
    pub depth_level: usize,
    pub searching: bool,
    pub expanded: Option<FragmentId>,
}

/// The identifiers of the first results.
pub open spec fn first_ids(results: Seq<EntryView>) -> Seq<FragmentId> {
    crate::lists::first_items(results, TOP_N as int).map_values(|e: EntryView| e.id)
}

impl ExplorerState {
    /// The explorer as it starts, with the search that lists the roots.
    pub fn new() -> (r: (Self, SearchRequest))
        ensures
            r.0.query@.len() == 0,
            r.0.results.len() == 0,
            r.0.depth_level == 0,
            r.0.searching,
            r.0.expanded is None,
            r.1.query@.len() == 0,
            r.1.parent_ids.len() == 0,
    {
        (
            ExplorerState {
                query: String::new(),
                results: Vec::new(),
                depth_level: 0,
                searching: true,
                expanded: None,
            },
            SearchRequest { query: String::new(), parent_ids: Vec::new() },
        )
    }

    /// Submits the query: among the roots at first, below the results after
    /// that. A blank query is not submitted.
    pub fn submit_search(&mut self) -> (r: Option<SearchRequest>)
        ensures
            r is Some <==> crate::text::trimmed(old(self).query@).len() > 0,
            r is None ==> *final(self) == *old(self),
            r matches Some(q) ==> {
                &&& q.query@ == old(self).query@
                &&& q.parent_ids@ == if old(self).depth_level == 0 {
                    Seq::empty()
                } else {
                    first_ids(entry_views(old(self).results@))
                }
                &&& final(self).searching
                &&& final(self).depth_level == crate::consolidation::counted(
                    (old(self).depth_level + 1) as nat,
                )
                &&& final(self).query@ == old(self).query@
                &&& entry_views(final(self).results@) == entry_views(old(self).results@)
                &&& final(self).expanded == old(self).expanded
            },
    {
        if is_blank(self.query.as_str()) {
            return None;
        }
        let mut parent_ids: Vec<FragmentId> = Vec::new();
        if self.depth_level > 0 {
            let ghost all = entry_views(self.results@);
            let ghost ids = first_ids(all);
            let mut i: usize = 0;
            while i < self.results.len() && i < TOP_N
                invariant
                    i <= self.results.len(),
                    i <= TOP_N,
                    all == entry_views(self.results@),
                    *self == *old(self),
                    parent_ids.len() == i,
                    forall|k: int| 0 <= k < i ==> #[trigger] parent_ids@[k] == all[k].id,
                decreases self.results.len() - i,
            {
                assert(all[i as int] == self.results@[i as int]@);
                parent_ids.push(self.results[i].id);
                i = i + 1;
            }
            assert(parent_ids@ == ids);
        }
        self.searching = true;
        if self.depth_level < usize::MAX {
            self.depth_level = self.depth_level + 1;
        }
        Some(SearchRequest { query: self.query.clone(), parent_ids })
    }

    /// Takes in the results of a search.
    pub fn take_results(&mut self, results: Vec<ResultEntry>)
        ensures
            final(self).results == results,
            !final(self).searching,
            final(self).expanded is None,
            final(self).query == old(self).query,
            final(self).depth_level == old(self).depth_level,
    {
        self.results = results;
        self.searching = false;
        self.expanded = None;
    }

    /// Goes back to the roots.
    pub fn back_to_roots(&mut self)
        ensures
            final(self).results.len() == 0,
            final(self).depth_level == 0,
            final(self).expanded is None,
            final(self).query == old(self).query,
            final(self).searching == old(self).searching,
    {
        self.depth_level = 0;
        self.results = Vec::new();
        self.expanded = None;
    }

    /// Expands a result, or folds it where it is expanded.
    pub fn toggle(&mut self, id: FragmentId)
        ensures
            final(self).expanded == (if old(self).expanded == Some(id) {
                None::<FragmentId>
            } else {
                Some(id)
            }),
            final(self).results == old(self).results,
            final(self).depth_level == old(self).depth_level,
            final(self).query == old(self).query,
            final(self).searching == old(self).searching,
    {
        let is_expanded: bool = match self.expanded {
            Some(e) => e == id,
            None => false,
        };
        self.expanded = if is_expanded {
            None
        } else {
            Some(id)
        };
    }

    /// Tells whether to say that nothing was found.
    pub fn shows_nothing_found(&self) -> (r: bool)
        ensures
            r == (self.results.len() == 0 && !self.searching && self.depth_level > 0),
    {
        self.results.len() == 0 && !self.searching && self.depth_level > 0
    }
}

/// The text of a result: all of it where it is expanded or short, and otherwise
/// its beginning and three dots.
pub open spec fn shown_text(content: Seq<char>, expanded: bool) -> Seq<char> {
    if !expanded && crate::text::byte_len(content) > PREVIEW_LENGTH {
        crate::text::first_chars(content, PREVIEW_LENGTH as int) + "..."@
    } else {
        content
    }
}

/// The text of a result.
pub fn display_text(entry: &ResultEntry, expanded: bool) -> (r: String)
    ensures
        r@ == shown_text(entry.content@, expanded),
{
    if !expanded && count_bytes(&to_chars(entry.content.as_str())) > PREVIEW_LENGTH as u128 {
        let mut s: String = take_chars(entry.content.as_str(), PREVIEW_LENGTH);
        s.append("...");
        s
    } else {
        entry.content.clone()
    }
}

/// The depth of a result, as it is shown.
pub fn depth_label(depth: u32) -> (r: String)
    ensures
        r@ == "d"@ + crate::text::decimal(depth as nat),
{
    let mut s: String = "d".to_owned();
    s.append(decimal_text(depth as u64).as_str());
    s
}

/// The number of children of a result, as it is shown.
pub fn children_label(count: usize) -> (r: String)
    ensures
        r@ == crate::text::decimal(count as nat) + " children"@,
{
    let mut s: String = decimal_text(count as u64);
    s.append(" children");
    s
}

/// A level, as it is shown on the way from the roots.
pub fn level_label(level: usize) -> (r: String)
    ensures
        r@ == "Level "@ + crate::text::decimal(level as nat),
{
    let mut s: String = "Level ".to_owned();
    s.append(decimal_text(level as u64).as_str());
    s
}

// ---- laws ----

/// What a child is worth: with an embedding for the query, the blend of similarity and
/// relevance, or three tenths of its relevance where it has no embedding itself; without
/// one, what its content is worth as a match by text.
pub proof fn law_child_score(f: FragmentView, query: Seq<char>, e: Seq<i32>)
    requires
        0 <= f.relevance_score <= 1_000_000_000,
    ensures
        f.embedding.len() > 0 ==> child_score(f, query, Some(e)) == crate::relevance::blended(
            crate::embedding::similarity(e, f.embedding),
            f.relevance_score as int,
        ),
        f.embedding.len() == 0 ==> child_score(f, query, Some(e)) == 3 * f.relevance_score / 10,
        ({
            let matched = crate::query::text_match(
                crate::text::lowercase(query),
                crate::text::lowercase(f.content),
                Seq::empty(),
            );
            &&& matched is None ==> child_score(f, query, None) == 0
            &&& matched is Some ==> child_score(f, query, None) == matched->0
        }),
{
    let x = f.relevance_score as int;
    assert(x * 300_000_000 / 1_000_000_000 == 3 * x / 10);
}

/// Every child counts whose score is above zero and that has not faded to 0.05 or below,
/// behind those before it, and no other does; so do the children of every parent.
pub proof fn law_children_one_by_one(
    g: StorageView,
    children: Seq<FragmentView>,
    f: FragmentView,
    parents: Seq<FragmentId>,
    p: FragmentId,
    query: Seq<char>,
    embedding: Option<Seq<i32>>,
)
    ensures
        scored_children(Seq::empty(), query, embedding).len() == 0,
        scored_below(g, Seq::empty(), query, embedding).len() == 0,
        ({
            let score = child_score(f, query, embedding);
            let before = scored_children(children, query, embedding);
            let after = scored_children(children.push(f), query, embedding);
            &&& score > 0 && f.relevance_score > 50_000_000 ==> after == before.push(
                ScoredView { fragment: f, score },
            )
            &&& score <= 0 || f.relevance_score <= 50_000_000 ==> after == before
        }),
        scored_below(g, parents.push(p), query, embedding) == scored_below(
            g,
            parents,
            query,
            embedding,
        ) + scored_children(crate::storage::children_of(g, p), query, embedding),
{
    assert(children.push(f).drop_last() == children);
    assert(parents.push(p).drop_last() == parents);
}

/// What a request finds: below parents the ten best of their children; among the roots the
/// ten best for a query, which is the one search that reinforces what it finds; and for an
/// empty query the ten most relevant ones.
pub proof fn law_what_is_explored(
    g: StorageView,
    query: Seq<char>,
    parents: Seq<FragmentId>,
    embedding: Option<Seq<i32>>,
    now: i64,
)
    ensures
        ({
            let all = found(g, query, parents, embedding);
            let after = after_search(g, query, parents, embedding, now);
            &&& parents.len() > 0 ==> all == crate::query::best(
                scored_below(g, parents, query, embedding),
                10,
            ) && after == g
            &&& parents.len() == 0 && query.len() > 0 ==> all == crate::query::query_hits(
                g,
                query,
                embedding,
                0,
                10,
            ) && after == crate::query::all_recalled(g, all, now)
            &&& parents.len() == 0 && query.len() == 0 ==> {
                let roots = crate::query::roots_of(g);
                &&& after == g
                &&& all.len() == if roots.len() < 10 {
                    roots.len()
                } else {
                    10
                }
                &&& forall|i: int|
                    0 <= i < all.len() ==> (#[trigger] all[i]).fragment == roots[i] && all[i].score
                        == roots[i].relevance_score
            }
        }),
{
}

/// A result tells of a fragment what it holds, with its score and the number of its
/// children; the ten first results are the parents of the next search.
pub proof fn law_results(g: StorageView, s: ScoredView, results: Seq<EntryView>, i: int)
    ensures
        ({
            let e = entry_of(g)(s);
            &&& e.id == s.fragment.id && e.content == s.fragment.content && e.depth
                == s.fragment.depth && e.score == s.score
            &&& e.children_count == crate::storage::children_of(g, s.fragment.id).len()
        }),
        first_ids(results).len() == if results.len() < 10 {
            results.len()
        } else {
            10
        },
        0 <= i < first_ids(results).len() ==> first_ids(results)[i] == results[i].id,
{
}

/// A result is shown in full where it is expanded or has 200 bytes at most; otherwise its
/// first 200 characters are shown, and three dots.
pub proof fn law_shown_text(content: Seq<char>)
    ensures
        shown_text(content, true) == content,
        crate::text::byte_len(content) <= 200 ==> shown_text(content, false) == content,
        crate::text::byte_len(content) > 200 ==> shown_text(content, false)
            == crate::text::first_chars(content, 200) + "..."@,
{
}

} // verus!
