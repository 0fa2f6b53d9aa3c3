//! The course of a digestion: session by session and part by part.
//!
//! [`Digestion`] says what to extract knowledge from next, and takes in what came
//! of it. A session whose parts are all through is digested: it loses its waiting
//! turns, whether or not knowledge came of them.

use vstd::prelude::*;

use crate::digest::{digestion_parts, part_turns, session_id, session_turns, sessions_to_digest};
use crate::ingestion::ExtractionResult;
#[allow(unused_imports)]
use crate::ingestion::ResultView;
use crate::parser::ConversationTurn;
#[allow(unused_imports)]
use crate::parser::ConversationTurnView;
use crate::query::LoreDb;
#[allow(unused_imports)]
use crate::storage::StorageView;
use crate::store::{store_extraction_result, store_extraction_seeded, Seeds};

verus! {

/// A digestion on its way.
#[derive(Debug)]
pub struct Digestion {
    /// The logs of all sessions to digest.
    paths: Vec<String>,
    max_turns: usize,
    /// The session at hand, its turns, and the parts in which they are digested.
    at: usize,
    turns: Vec<ConversationTurn>,
    parts: Vec<(usize, usize)>,
    /// The part at hand.
    part: usize,
    digested: usize,
    fragments: usize,
}

/// What a digestion holds.
#[verifier::ext_equal]
pub struct DigestionView {
    pub paths: Seq<Seq<char>>,
    pub max_turns: int,
    pub at: int,
    pub turns: Seq<ConversationTurnView>,
    pub parts: Seq<(int, int)>,
    pub part: int,
    pub digested: nat,
    pub fragments: nat,
}

impl View for Digestion {
    type V = DigestionView;

    closed spec fn view(&self) -> DigestionView {
        DigestionView {
            paths: crate::text::views(self.paths@),
            max_turns: self.max_turns as int,
            at: self.at as int,
            turns: crate::parser::conversation_views(self.turns@),
            parts: crate::digest::span_views(self.parts@),
            part: self.part as int,
            digested: self.digested as nat,
            fragments: self.fragments as nat,
        }
    }
}

/// What to do next.
#[derive(Debug)]
pub enum DigestStep {
    /// Extract knowledge from some turns of a log.
    Extract { file_path: String, turns: Vec<ConversationTurn> },
    Done,
}

/// What came of an extraction.
#[derive(Debug)]
pub enum DigestEvent {
    /// Knowledge without embeddings.
    Extracted(ExtractionResult),
    /// Knowledge with seeds, which hold the embeddings of its levels: by these it goes
    /// below the roots that it fits, and gains importance where it is novel.
    Seeded(ExtractionResult, Seeds),
    Failed,
}

/// The seeds that come with knowledge fit it.
pub open spec fn event_fits(event: DigestEvent) -> bool {
    event matches DigestEvent::Seeded(result, seeds) ==> crate::store::seeds_fit(result@, seeds)
}

/// A digestion is at a part of a session, or has come to its end.
pub open spec fn is_course(v: DigestionView) -> bool {
    &&& v.max_turns > 0
    &&& 0 <= v.at <= v.paths.len()
    &&& v.at < v.paths.len() ==> 0 <= v.part < v.parts.len() && v.parts
        == crate::digest::digestion_spans(v.turns, v.max_turns)
}

/// The first session from `at` on that has waiting turns.
pub open spec fn next_session(g: StorageView, paths: Seq<Seq<char>>, at: int) -> int
    decreases paths.len() - at,
{
    if at < 0 || at >= paths.len() || crate::digest::waiting_turns(g, paths[at]).len() > 0 {
        at
    } else {
        next_session(g, paths, at + 1)
    }
}

/// A digestion that goes on with the next session that has waiting turns.
pub open spec fn moved_on(v: DigestionView, g: StorageView) -> DigestionView {
    let k = next_session(g, v.paths, v.at);
    let turns = if 0 <= k < v.paths.len() {
        crate::digest::waiting_turns(g, v.paths[k])
    } else {
        Seq::empty()
    };
    DigestionView {
        at: k,
        turns,
        parts: if 0 <= k < v.paths.len() {
            crate::digest::digestion_spans(turns, v.max_turns)
        } else {
            Seq::empty()
        },
        part: 0,
        ..v
    }
}

/// A digestion as it starts, with the sessions that are idle.
pub open spec fn first_course(
    g: StorageView,
    idle_threshold_secs: i64,
    max_turns: int,
    now: i64,
) -> DigestionView {
    let sessions = crate::lists::first_items(
        crate::storage::idle_sessions(g.turns, idle_threshold_secs, now),
        crate::consolidation::MAX_SESSIONS_PER_CONSOLIDATION as int,
    );
    moved_on(
        DigestionView {
            paths: sessions.map_values(|s: crate::storage::SessionView| s.file_path),
            max_turns,
            at: 0,
            turns: Seq::empty(),
            parts: Seq::empty(),
            part: 0,
            digested: 0,
            fragments: 0,
        },
        g,
    )
}

/// `after` and `count` are the outcome of storing a result with given seeds: of one
/// that is refused, nothing is counted.
pub open spec fn result_stored(
    g: StorageView,
    result: ResultView,
    source_session: Option<Seq<char>>,
    seeds: Seeds,
    after: StorageView,
    count: nat,
) -> bool {
    let o = crate::store::storing_result(g, result, source_session, seeds);
    &&& after == o.graph
    &&& count == match o.result {
        Ok(n) => crate::consolidation::counted(n),
        Err(_) => 0,
    }
}

/// `after` and `count` are an outcome of storing what came of an extraction: of
/// one that failed, and of a result that is refused, nothing is counted. Seeds that
/// do not come with the result are drawn.
pub open spec fn event_stored(
    g: StorageView,
    event: DigestEvent,
    source_session: Option<Seq<char>>,
    after: StorageView,
    count: nat,
) -> bool {
    match event {
        DigestEvent::Extracted(result) => exists|seeds: Seeds| #[trigger]
            crate::store::seeds_fit(result@, seeds) && crate::store::seeds_drawn(seeds)
                && result_stored(g, result@, source_session, seeds, after, count),
        DigestEvent::Seeded(result, seeds) => result_stored(
            g,
            result@,
            source_session,
            seeds,
            after,
            count,
        ),
        DigestEvent::Failed => after == g && count == 0,
    }
}

/// The memory without the waiting turns of a log.
pub open spec fn turns_dropped(g: StorageView, path: Seq<char>) -> StorageView {
    StorageView { turns: g.turns.filter(crate::storage::from_other_file(path)), ..g }
}

/// `after` and `next` are an outcome of taking in what came of an extraction from
/// the part at hand. After the last part of a session, the session loses its
/// waiting turns and is counted, and the next session comes.
pub open spec fn event_taken(
    g: StorageView,
    v: DigestionView,
    event: DigestEvent,
    after: StorageView,
    next: DigestionView,
) -> bool {
    let path = v.paths[v.at];
    exists|stored: StorageView, count: nat|
        {
            let counted = DigestionView {
                fragments: crate::consolidation::counted(v.fragments + count),
                ..v
            };
            &&& #[trigger] event_stored(
                g,
                event,
                crate::paths::path_stem(path),
                stored,
                count,
            )
            &&& if v.part + 1 < v.parts.len() {
                &&& after == stored
                &&& next == (DigestionView { part: v.part + 1, ..counted })
            } else {
                &&& after == turns_dropped(stored, path)
                &&& next == moved_on(
                    DigestionView {
                        at: v.at + 1,
                        digested: crate::consolidation::counted(v.digested + 1),
                        ..counted
                    },
                    after,
                )
            }
        }
}

/// A sum, as far as it can be counted.
fn add_counts(a: usize, b: usize) -> (r: usize)
    ensures
        r == crate::consolidation::counted((a + b) as nat),
{
    if a <= usize::MAX - b {
        a + b
    } else {
        usize::MAX
    }
}

impl Digestion {
    /// The digestion is at a part of a session, or has come to its end.
    pub open spec fn wf(&self) -> bool {
        is_course(self@)
    }

    /// Goes on with the next session that has waiting turns.
    fn move_on(&mut self, db: &LoreDb)
        requires
            0 <= old(self)@.at <= old(self)@.paths.len(),
            old(self)@.max_turns > 0,
        ensures
            final(self)@ == moved_on(old(self)@, db@),
            final(self).wf(),
    {
        let ghost v = self@;
        self.turns = Vec::new();
        self.parts = Vec::new();
        self.part = 0;
        assert(crate::parser::conversation_views(self.turns@) == Seq::<
            ConversationTurnView,
        >::empty());
        assert(crate::digest::span_views(self.parts@) == Seq::<(int, int)>::empty());
        while self.at < self.paths.len()
            invariant
                v == old(self)@,
                v.max_turns > 0,
                0 <= v.at <= self.at <= self.paths.len(),
                v.paths.len() == self.paths.len(),
                self@ == (DigestionView {
                    at: self.at as int,
                    turns: Seq::empty(),
                    parts: Seq::empty(),
                    part: 0,
                    ..v
                }),
                next_session(db@, v.paths, v.at) == next_session(db@, v.paths, self.at as int),
            decreases self.paths.len() - self.at,
        {
            let turns = session_turns(db, self.paths[self.at].as_str());
            assert(v.paths[self.at as int] == self.paths@[self.at as int]@);
            assert(crate::parser::conversation_views(turns@).len() == turns.len());
            if turns.len() > 0 {
                let parts = digestion_parts(&turns, self.max_turns);
                proof {
                    crate::digest::law_digestion_covers(
                        crate::parser::conversation_views(turns@),
                        self.max_turns as int,
                    );
                }
                self.turns = turns;
                self.parts = parts;
                assert(self@ == moved_on(v, db@));
                return;
            }
            self.at = self.at + 1;
        }
        assert(self@ == moved_on(v, db@));
    }

    /// Starts a digestion of the sessions that are idle, as of a given time.
    pub fn start(db: &LoreDb, idle_threshold_secs: i64, max_turns: usize, now: i64) -> (r: Self)
        requires
            max_turns > 0,
        ensures
            r@ == first_course(db@, idle_threshold_secs, max_turns as int, now),
            r.wf(),
    {
        let sessions = sessions_to_digest(db, idle_threshold_secs, now);
        let ghost views = crate::storage::session_views(sessions@);
        let mut paths: Vec<String> = Vec::new();
        let mut i: usize = 0;
        while i < sessions.len()
            invariant
                i <= sessions.len(),
                views == crate::storage::session_views(sessions@),
                paths.len() == i,
                forall|k: int| 0 <= k < i ==> (#[trigger] paths@[k])@ == views[k].file_path,
            decreases sessions.len() - i,
        {
            assert(views[i as int] == sessions@[i as int]@);
            paths.push(sessions[i].file_path.clone());
            i = i + 1;
        }
        let mut r = Digestion {
            paths,
            max_turns,
            at: 0,
            turns: Vec::new(),
            parts: Vec::new(),
            part: 0,
            digested: 0,
            fragments: 0,
        };
        proof {
            let p = views.map_values(|s: crate::storage::SessionView| s.file_path);
            assert(r@.paths == p);
            assert(r@.turns == Seq::<ConversationTurnView>::empty());
            assert(r@.parts == Seq::<(int, int)>::empty());
        }
        r.move_on(db);
        r
    }

    /// Tells what to do next.
    pub fn next_step(&self) -> (r: DigestStep)
        requires
            self.wf(),
        ensures
            match r {
                DigestStep::Extract { file_path, turns } => {
                    &&& self@.at < self@.paths.len()
                    &&& file_path@ == self@.paths[self@.at]
                    &&& crate::parser::conversation_views(turns@) == self@.turns.subrange(
                        self@.parts[self@.part].0,
                        self@.parts[self@.part].1,
                    )
                },
                DigestStep::Done => self@.at == self@.paths.len(),
            },
    {
        if self.at >= self.paths.len() {
            return DigestStep::Done;
        }
        let (from, to) = self.parts[self.part];
        proof {
            let spans = self@.parts;
            crate::digest::law_digestion_covers(self@.turns, self@.max_turns);
            lemma_spans_inside(self@.turns.len() as int, spans, self@.max_turns, self@.part);
            assert(spans[self@.part] == (from as int, to as int));
        }
        DigestStep::Extract {
            file_path: self.paths[self.at].clone(),
            turns: part_turns(&self.turns, from, to),
        }
    }

    /// Takes in what came of the extraction that was asked for.
    pub fn take_event(&mut self, db: &mut LoreDb, event: DigestEvent)
        requires
            old(self).wf(),
            old(db).wf(),
            old(self)@.at < old(self)@.paths.len(),
            event_fits(event),
        ensures
            final(self).wf(),
            final(db).wf(),
            event_taken(old(db)@, old(self)@, event, final(db)@, final(self)@),
    {
        let ghost v = self@;
        let ghost g = db@;
        assert(self.part < self.parts.len() && self.at < self.paths.len()) by {
            assert(v.parts.len() == self.parts.len());
            assert(v.paths.len() == self.paths.len());
        }
        let path = self.paths[self.at].clone();
        assert(path@ == v.paths[v.at]);
        let source = session_id(path.as_str());
        let count: usize = match &event {
            DigestEvent::Extracted(result) => {
                let stored = match &source {
                    Some(s) => store_extraction_result(db, result, Some(s.as_str())),
                    None => store_extraction_result(db, result, None),
                };
                match stored {
                    Ok(n) => n,
                    Err(_) => 0,
                }
            },
            DigestEvent::Seeded(result, seeds) => {
                let stored = match &source {
                    Some(s) => store_extraction_seeded(db, result, Some(s.as_str()), seeds),
                    None => store_extraction_seeded(db, result, None, seeds),
                };
                match stored {
                    Ok(n) => n,
                    Err(_) => 0,
                }
            },
            DigestEvent::Failed => 0,
        };
        let ghost stored = db@;
        assert(event_stored(g, event, crate::paths::path_stem(path@), stored, count as nat));
        self.fragments = add_counts(self.fragments, count);
        if self.part + 1 < self.parts.len() {
            self.part = self.part + 1;
            assert(self@ == (DigestionView {
                part: v.part + 1,
                fragments: crate::consolidation::counted(v.fragments + count as nat),
                ..v
            }));
            return;
        }
        db.storage_mut().delete_staged_turns(path.as_str());
        self.digested = add_counts(self.digested, 1);
        self.at = self.at + 1;
        assert(self@ == (DigestionView {
            at: v.at + 1,
            digested: crate::consolidation::counted(v.digested + 1),
            fragments: crate::consolidation::counted(v.fragments + count as nat),
            ..v
        }));
        self.move_on(db);
    }

    /// How many sessions were digested, and how many fragments came of them.
    pub fn counts(&self) -> (r: (usize, usize))
        ensures
            r.0 == self@.digested,
            r.1 == self@.fragments,
    {
        (self.digested, self.fragments)
    }
}

/// Parts that follow each other lie inside what they cover.
proof fn lemma_spans_inside(len: int, spans: Seq<(int, int)>, size: int, k: int)
    requires
        crate::digest::is_chain(spans, 0, len, size),
        0 <= k < spans.len(),
    ensures
        0 <= spans[k].0 <= spans[k].1 <= len,
{
    lemma_spans_start(len, spans, size, k);
    lemma_spans_end(len, spans, size, k);
}

proof fn lemma_spans_start(len: int, spans: Seq<(int, int)>, size: int, k: int)
    requires
        crate::digest::is_chain(spans, 0, len, size),
        0 <= k < spans.len(),
    ensures
        0 <= spans[k].0,
    decreases k,
{
    if k > 0 {
        lemma_spans_start(len, spans, size, k - 1);
        assert(spans[k - 1].1 == spans[k].0);
    }
}

proof fn lemma_spans_end(len: int, spans: Seq<(int, int)>, size: int, k: int)
    requires
        crate::digest::is_chain(spans, 0, len, size),
        0 <= k < spans.len(),
    ensures
        spans[k].1 <= len,
    decreases spans.len() - k,
{
    if k < spans.len() - 1 {
        lemma_spans_end(len, spans, size, k + 1);
        assert(spans[k].1 == spans[k + 1].0);
    }
}

// ---- laws ----

/// A digested session loses its waiting turns, whether its extractions succeeded
/// or failed; until its last part is through it keeps them. All other sessions
/// keep theirs. What was known is not changed by it, and of what failed nothing
/// is stored or counted.
pub proof fn law_digested_sessions_lose_their_turns(
    g: StorageView,
    v: DigestionView,
    event: DigestEvent,
    after: StorageView,
    next: DigestionView,
    other: Seq<char>,
)
    requires
        is_course(v),
        v.at < v.paths.len(),
        event_taken(g, v, event, after, next),
    ensures
        ({
            let path = v.paths[v.at];
            let last = v.part + 1 == v.parts.len();
            &&& last ==> after.turns.filter(crate::storage::from_file(path)).len() == 0
            &&& last ==> next.digested == crate::consolidation::counted(v.digested + 1) && next.at
                > v.at
            &&& !last ==> after.turns == g.turns && next.digested == v.digested && next.at == v.at
                && next.part == v.part + 1
            &&& other != path ==> after.turns.filter(crate::storage::from_file(other))
                == g.turns.filter(crate::storage::from_file(other))
            &&& g.fragments.len() <= after.fragments.len() && after.fragments.take(
                g.fragments.len() as int,
            ) == g.fragments
            &&& event is Failed ==> after.fragments == g.fragments && after.edges == g.edges
                && next.fragments == crate::consolidation::counted(v.fragments)
        }),
{
    let path = v.paths[v.at];
    let session = crate::paths::path_stem(path);
    let (stored, count) = choose|stored: StorageView, count: nat|
        {
            let counted = DigestionView {
                fragments: crate::consolidation::counted(v.fragments + count),
                ..v
            };
            &&& #[trigger] event_stored(g, event, session, stored, count)
            &&& if v.part + 1 < v.parts.len() {
                &&& after == stored
                &&& next == (DigestionView { part: v.part + 1, ..counted })
            } else {
                &&& after == turns_dropped(stored, path)
                &&& next == moved_on(
                    DigestionView {
                        at: v.at + 1,
                        digested: crate::consolidation::counted(v.digested + 1),
                        ..counted
                    },
                    after,
                )
            }
        };
    assert(stored.turns == g.turns && g.fragments.len() <= stored.fragments.len()
        && stored.fragments.take(g.fragments.len() as int) == g.fragments) by {
        match event {
            DigestEvent::Extracted(result) => {
                let seeds = choose|seeds: Seeds| #[trigger]
                    crate::store::seeds_fit(result@, seeds) && crate::store::seeds_drawn(seeds)
                        && result_stored(g, result@, session, seeds, stored, count);
                crate::store::law_storing_only_adds(g, result@, session, seeds);
            },
            DigestEvent::Seeded(result, seeds) => {
                crate::store::law_storing_only_adds(g, result@, session, seeds);
            },
            DigestEvent::Failed => {
                assert(g.fragments.take(g.fragments.len() as int) == g.fragments);
            },
        }
    }
    crate::storage::law_deleted_turns_are_gone(g.turns, path, other);
    lemma_next_session_is_later(after, v.paths, v.at + 1);
}

proof fn lemma_next_session_is_later(g: StorageView, paths: Seq<Seq<char>>, at: int)
    ensures
        next_session(g, paths, at) >= at,
    decreases paths.len() - at,
{
    if !(at < 0 || at >= paths.len() || crate::digest::waiting_turns(g, paths[at]).len() > 0) {
        lemma_next_session_is_later(g, paths, at + 1);
    }
}

/// The next session is the first one with waiting turns: all before it have none, and
/// where there is no such session the digestion is at its end.
pub proof fn law_next_session(g: StorageView, paths: Seq<Seq<char>>, at: int)
    requires
        0 <= at <= paths.len(),
    ensures
        at <= next_session(g, paths, at) <= paths.len(),
        forall|k: int|
            at <= k < next_session(g, paths, at) ==> crate::digest::waiting_turns(
                g,
                #[trigger] paths[k],
            ).len() == 0,
        next_session(g, paths, at) < paths.len() ==> crate::digest::waiting_turns(
            g,
            paths[next_session(g, paths, at)],
        ).len() > 0,
    decreases paths.len() - at,
{
    if at < paths.len() && crate::digest::waiting_turns(g, paths[at]).len() == 0 {
        law_next_session(g, paths, at + 1);
    }
}

/// A session that a digestion is at is digested from its first part on, with all turns
/// that wait for it; and what was counted is not changed by going on.
pub proof fn law_a_session_begins(v: DigestionView, g: StorageView)
    requires
        0 <= v.at <= v.paths.len(),
        v.max_turns > 0,
    ensures
        ({
            let next = moved_on(v, g);
            &&& next.paths == v.paths && next.max_turns == v.max_turns
            &&& next.digested == v.digested && next.fragments == v.fragments
            &&& next.part == 0
            &&& next.at < next.paths.len() ==> next.turns == crate::digest::waiting_turns(
                g,
                v.paths[next.at],
            ) && next.turns.len() > 0 && next.parts == crate::digest::digestion_spans(
                next.turns,
                v.max_turns,
            )
            &&& next.at == next_session(g, v.paths, v.at)
        }),
{
    law_next_session(g, v.paths, v.at);
}

/// A digestion starts with the idle sessions, those that have waited longest first and
/// ten at most, and is at the first of them.
pub proof fn law_digestion_starts(
    g: StorageView,
    idle_threshold_secs: i64,
    max_turns: int,
    now: i64,
)
    requires
        max_turns > 0,
    ensures
        ({
            let idle = crate::storage::idle_sessions(g.turns, idle_threshold_secs, now);
            let v = first_course(g, idle_threshold_secs, max_turns, now);
            &&& v.paths.len() == if idle.len() < 10 {
                idle.len()
            } else {
                10
            }
            &&& forall|k: int| 0 <= k < v.paths.len() ==> #[trigger] v.paths[k] == idle[k].file_path
            &&& v.at == 0
            &&& v.max_turns == max_turns && v.digested == 0 && v.fragments == 0
            &&& v.paths.len() > 0 ==> v.turns == crate::digest::waiting_turns(g, v.paths[0])
        }),
{
    let idle = crate::storage::idle_sessions(g.turns, idle_threshold_secs, now);
    let v = first_course(g, idle_threshold_secs, max_turns, now);
    crate::storage::law_idle_sessions(g.turns, idle_threshold_secs, now);
    if v.paths.len() > 0 {
        assert(v.paths[0] == idle[0].file_path);
        assert(crate::storage::is_session_of(g.turns, idle[0]));
        let keep = crate::storage::from_file(v.paths[0]);
        let i = choose|i: int|
            0 <= i < g.turns.len() && (#[trigger] g.turns[i]).file_path == idle[0].file_path
                && g.turns[i].staged_at == idle[0].last_staged;
        crate::lists::lemma_filter_members(g.turns, keep);
        assert(keep(g.turns[i]));
        assert(g.turns.filter(keep).contains(g.turns[i]));
        assert(crate::digest::waiting_turns(g, v.paths[0]).len() > 0);
    }
}

/// What came of an extraction is counted as it is stored: as many fragments as the memory
/// holds more, as far as they can be counted.
pub proof fn law_digested_fragments_are_counted(
    g: StorageView,
    result: ResultView,
    seeds: Seeds,
    session: Option<Seq<char>>,
    after: StorageView,
    count: nat,
)
    requires
        result_stored(g, result, session, seeds, after, count),
        crate::store::storing_result(g, result, session, seeds).result is Ok,
        after.fragments.len() <= usize::MAX,
    ensures
        after.fragments.len() == g.fragments.len() + count,
{
    crate::store::law_stored_fragments_are_counted(g, result, session, seeds);
}

/// What is digested names the session that it came from: the stem of the log.
pub proof fn law_digested_names_its_session(
    g: StorageView,
    v: DigestionView,
    event: DigestEvent,
    after: StorageView,
    next: DigestionView,
    k: int,
)
    requires
        is_course(v),
        v.at < v.paths.len(),
        event_taken(g, v, event, after, next),
        g.fragments.len() <= k < after.fragments.len(),
    ensures
        after.fragments[k].source_session == crate::paths::path_stem(v.paths[v.at]),
        after.fragments[k].superseded_by is None,
{
    let path = v.paths[v.at];
    let session = crate::paths::path_stem(path);
    let (stored, count) = choose|stored: StorageView, count: nat|
        {
            let counted = DigestionView {
                fragments: crate::consolidation::counted(v.fragments + count),
                ..v
            };
            &&& #[trigger] event_stored(g, event, session, stored, count)
            &&& if v.part + 1 < v.parts.len() {
                &&& after == stored
                &&& next == (DigestionView { part: v.part + 1, ..counted })
            } else {
                &&& after == turns_dropped(stored, path)
                &&& next == moved_on(
                    DigestionView {
                        at: v.at + 1,
                        digested: crate::consolidation::counted(v.digested + 1),
                        ..counted
                    },
                    after,
                )
            }
        };
    match event {
        DigestEvent::Extracted(result) => {
            let seeds = choose|seeds: Seeds| #[trigger]
                crate::store::seeds_fit(result@, seeds) && crate::store::seeds_drawn(seeds)
                    && result_stored(g, result@, session, seeds, stored, count);
            crate::store::law_stored_names_its_session(g, result@, session, seeds, k);
        },
        DigestEvent::Seeded(result, seeds) => {
            crate::store::law_stored_names_its_session(g, result@, session, seeds, k);
        },
        DigestEvent::Failed => {},
    }
}

} // verus!
