//! Digestion: which conversations to extract knowledge from, in which parts, and
//! what the extraction is told of the knowledge that is there.

use vstd::prelude::*;

use crate::consolidation::MAX_SESSIONS_PER_CONSOLIDATION;
use crate::contradiction::cut_into_parts;
use crate::fragment::Fragment;
#[allow(unused_imports)]
use crate::fragment::FragmentView;
use crate::parser::ConversationTurn;
#[allow(unused_imports)]
use crate::parser::ConversationTurnView;
use crate::paths::file_stem;
use crate::query::LoreDb;
use crate::segments::detect_topic_boundaries;
use crate::storage::StagedSession;
#[allow(unused_imports)]
use crate::storage::{StagedTurnView, StorageView};

verus! {

/// The sessions to digest in one run: those that are idle, the oldest first, up
/// to a number of them.
pub fn sessions_to_digest(db: &LoreDb, idle_threshold_secs: i64, now: i64) -> (r: Vec<
    StagedSession,
>)
    ensures
        crate::storage::session_views(r@) == crate::lists::first_items(
            crate::storage::idle_sessions(db@.turns, idle_threshold_secs, now),
            MAX_SESSIONS_PER_CONSOLIDATION as int,
        ),
{
    let mut sessions = db.storage().get_staged_sessions(idle_threshold_secs, now);
    let ghost all = crate::storage::session_views(sessions@);
    if sessions.len() > MAX_SESSIONS_PER_CONSOLIDATION {
        sessions.truncate(MAX_SESSIONS_PER_CONSOLIDATION);
    }
    assert(crate::storage::session_views(sessions@) == crate::lists::first_items(
        all,
        MAX_SESSIONS_PER_CONSOLIDATION as int,
    ));
    sessions
}

/// A waiting turn as a turn of a conversation.
pub open spec fn as_turn() -> spec_fn(StagedTurnView) -> ConversationTurnView {
    |t: StagedTurnView| ConversationTurnView { role: t.role, text: t.text }
}

/// The waiting turns of a session.
pub open spec fn waiting_turns(g: StorageView, file_path: Seq<char>) -> Seq<ConversationTurnView> {
    g.turns.filter(crate::storage::from_file(file_path)).map_values(
        crate::storage::told(),
    ).map_values(as_turn())
}

/// The waiting turns of a session.
pub fn session_turns(db: &LoreDb, file_path: &str) -> (r: Vec<ConversationTurn>)
    ensures
        crate::parser::conversation_views(r@) == waiting_turns(db@, file_path@),
{
    let staged = db.storage().get_staged_turns(file_path);
    let ghost all = crate::storage::staged_turn_views(staged@);
    let mut out: Vec<ConversationTurn> = Vec::new();
    let mut i: usize = 0;
    while i < staged.len()
        invariant
            i <= staged.len(),
            all == crate::storage::staged_turn_views(staged@),
            out.len() == i,
            forall|k: int| 0 <= k < i ==> (#[trigger] out@[k])@ == as_turn()(all[k]),
        decreases staged.len() - i,
    {
        assert(all[i as int] == staged@[i as int]@);
        out.push(
            ConversationTurn { role: staged[i].role.clone(), text: staged[i].text.clone() },
        );
        i = i + 1;
    }
    assert(crate::parser::conversation_views(out@) == waiting_turns(db@, file_path@));
    out
}

/// The identifier of a session: the stem of its log file.
pub fn session_id(file_path: &str) -> (r: Option<String>)
    ensures
        crate::fragment::text_view(r) == crate::paths::path_stem(file_path@),
{
    file_stem(file_path)
}

/// The turns of one part of a conversation.
pub fn part_turns(turns: &Vec<ConversationTurn>, from: usize, to: usize) -> (r: Vec<
    ConversationTurn,
>)
    requires
        from <= to <= turns.len(),
    ensures
        crate::parser::conversation_views(r@) == crate::parser::conversation_views(
            turns@,
        ).subrange(from as int, to as int),
{
    let ghost all = crate::parser::conversation_views(turns@);
    let mut out: Vec<ConversationTurn> = Vec::new();
    let mut i: usize = from;
    while i < to
        invariant
            from <= i <= to <= turns.len(),
            all == crate::parser::conversation_views(turns@),
            out.len() == i - from,
            forall|k: int| 0 <= k < out.len() ==> (#[trigger] out@[k])@ == all[from + k],
        decreases to - i,
    {
        assert(all[i as int] == turns@[i as int]@);
        out.push(ConversationTurn { role: turns[i].role.clone(), text: turns[i].text.clone() });
        i = i + 1;
    }
    assert(crate::parser::conversation_views(out@) == all.subrange(from as int, to as int));
    out
}

/// The parts of a conversation, one behind the other, are the conversation.
pub proof fn law_parts_cover(turns: Seq<ConversationTurnView>, size: int, n: int)
    requires
        size > 0,
        0 <= n <= crate::contradiction::part_count(turns.len() as int, size),
    ensures
        parts_joined(turns, size, n) == turns.take(
            if n * size < turns.len() {
                n * size
            } else {
                turns.len() as int
            },
        ),
    decreases n,
{
    let len = turns.len() as int;
    if n > 0 {
        law_parts_cover(turns, size, n - 1);
        let (from, to) = crate::contradiction::part_of(len, size, n - 1);
        assert((n - 1) * size == n * size - size) by (nonlinear_arith);
        assert(from < len) by {
            let c = crate::contradiction::part_count(len, size);
            vstd::arithmetic::div_mod::lemma_fundamental_div_mod(len + size - 1, size);
            assert(n * size <= c * size) by (nonlinear_arith)
                requires
                    n <= c,
                    size > 0,
            ;
            assert(size * c == c * size) by (nonlinear_arith);
        }
        assert(turns.take(from) + turns.subrange(from, to) == turns.take(to));
    } else {
        assert(0 * size == 0) by (nonlinear_arith);
        assert(turns.take(0) == Seq::<ConversationTurnView>::empty());
    }
}

/// The first `n` parts of a conversation, one behind the other.
pub open spec fn parts_joined(turns: Seq<ConversationTurnView>, size: int, n: int) -> Seq<
    ConversationTurnView,
>
    decreases n,
{
    if n <= 0 {
        Seq::empty()
    } else {
        let part = crate::contradiction::part_of(turns.len() as int, size, n - 1);
        parts_joined(turns, size, n - 1) + turns.subrange(part.0, part.1)
    }
}

// ---- segments ----

/// Where parts begin and end.
pub open spec fn span_views(v: Seq<(usize, usize)>) -> Seq<(int, int)> {
    Seq::new(v.len(), |i: int| (v[i].0 as int, v[i].1 as int))
}

/// Where segment `k` begins, given where all segments end.
pub open spec fn segment_start(ends: Seq<int>, k: int) -> int {
    if k <= 0 {
        0
    } else {
        ends[k - 1]
    }
}

/// The parts of what lies from `from` up to `to`.
pub open spec fn parts_between(from: int, to: int, size: int) -> Seq<(int, int)> {
    Seq::new(
        crate::contradiction::part_count(to - from, size) as nat,
        |k: int|
            {
                let p = crate::contradiction::part_of(to - from, size, k);
                (from + p.0, from + p.1)
            },
    )
}

/// The parts of the first `n` segments.
pub open spec fn segment_parts(ends: Seq<int>, size: int, n: nat) -> Seq<(int, int)>
    decreases n,
{
    if n == 0 {
        Seq::empty()
    } else {
        segment_parts(ends, size, (n - 1) as nat) + parts_between(
            segment_start(ends, n - 1),
            ends[n - 1],
            size,
        )
    }
}

/// The parts in which a conversation is digested: it is cut where the topic
/// shifts, and each segment into parts of the size of the most turns that are
/// digested at once.
pub open spec fn digestion_spans(turns: Seq<ConversationTurnView>, max_turns: int) -> Seq<
    (int, int),
> {
    let ends = crate::segments::boundaries(crate::segments::all_words(turns));
    segment_parts(ends, max_turns, ends.len())
}

/// Ends of segments that do not go back.
pub open spec fn ends_in_order(ends: Seq<int>) -> bool {
    forall|k: int| 0 <= k < ends.len() ==> segment_start(ends, k) <= #[trigger] ends[k]
}

/// Parts that follow each other from `from` up to `to`, none of them empty or
/// larger than a size.
pub open spec fn is_chain(parts: Seq<(int, int)>, from: int, to: int, size: int) -> bool {
    &&& parts.len() == 0 ==> from == to
    &&& parts.len() > 0 ==> parts[0].0 == from && parts.last().1 == to
    &&& forall|k: int|
        0 <= k < parts.len() ==> (#[trigger] parts[k]).0 < parts[k].1 <= parts[k].0 + size
    &&& forall|j: int, k: int|
        0 <= j && k == j + 1 && k < parts.len() ==> (#[trigger] parts[j]).1 == (
        #[trigger] parts[k]).0
}

proof fn lemma_parts_between(from: int, to: int, size: int)
    requires
        from <= to,
        size > 0,
    ensures
        is_chain(parts_between(from, to, size), from, to, size),
{
    let len = to - from;
    let n = crate::contradiction::part_count(len, size);
    let parts = parts_between(from, to, size);
    vstd::arithmetic::div_mod::lemma_fundamental_div_mod(len + size - 1, size);
    vstd::arithmetic::div_mod::lemma_mod_bound(len + size - 1, size);
    assert(size * n == n * size) by (nonlinear_arith);
    assert(n >= 0) by (nonlinear_arith)
        requires
            n == (len + size - 1) / size,
            len >= 0,
            size > 0,
    ;
    assert(n * size >= len && n * size < len + size);
    assert forall|k: int| 0 <= k < parts.len() implies (#[trigger] parts[k]).0 < parts[k].1
        <= parts[k].0 + size by {
        assert((k + 1) * size == k * size + size) by (nonlinear_arith);
        assert((k + 1) * size <= n * size) by (nonlinear_arith)
            requires
                k + 1 <= n,
                size > 0,
        ;
    }
    assert forall|j: int, k: int| 0 <= j && k == j + 1 && k < parts.len() implies (
    #[trigger] parts[j]).1 == (#[trigger] parts[k]).0 by {
        assert((k + 1) * size <= n * size) by (nonlinear_arith)
            requires
                k + 1 <= n,
                size > 0,
        ;
        assert((k + 1) * size == k * size + size) by (nonlinear_arith);
    }
    if parts.len() > 0 {
        assert(0 * size == 0) by (nonlinear_arith);
        assert((n - 1 + 1) * size == n * size);
    } else {
        assert(n == 0);
        assert(n * size == 0) by (nonlinear_arith)
            requires
                n == 0,
        ;
    }
}

proof fn lemma_segment_parts(ends: Seq<int>, size: int, n: nat)
    requires
        ends_in_order(ends),
        size > 0,
        n <= ends.len(),
    ensures
        is_chain(segment_parts(ends, size, n), 0, segment_start(ends, n as int), size),
    decreases n,
{
    if n > 0 {
        lemma_segment_parts(ends, size, (n - 1) as nat);
        let front = segment_parts(ends, size, (n - 1) as nat);
        let from = segment_start(ends, n - 1);
        let back = parts_between(from, ends[n - 1], size);
        let all = segment_parts(ends, size, n);
        lemma_parts_between(from, ends[n - 1], size);
        assert(all == front + back);
        assert forall|k: int| 0 <= k < all.len() implies (#[trigger] all[k]).0 < all[k].1
            <= all[k].0 + size by {
            if k < front.len() {
                assert(all[k] == front[k]);
            } else {
                assert(all[k] == back[k - front.len()]);
            }
        }
        assert forall|j: int, k: int| 0 <= j && k == j + 1 && k < all.len() implies (
        #[trigger] all[j]).1 == (#[trigger] all[k]).0 by {
            if k < front.len() {
                assert(all[j] == front[j] && all[k] == front[k]);
            } else if j >= front.len() {
                assert(all[j] == back[j - front.len()] && all[k] == back[k - front.len()]);
            } else {
                assert(all[j] == front.last() && all[k] == back[0]);
            }
        }
        if all.len() > 0 {
            if front.len() > 0 {
                assert(all[0] == front[0]);
            } else {
                assert(all[0] == back[0]);
            }
            if back.len() > 0 {
                assert(all.last() == back.last());
            } else {
                assert(all.last() == front.last());
            }
        }
    }
}

proof fn lemma_ends(words: Seq<Seq<Seq<char>>>)
    ensures
        ends_in_order(crate::segments::boundaries(words)),
        forall|k: int|
            0 <= k < crate::segments::boundaries(words).len() ==> #[trigger]
            crate::segments::boundaries(words)[k] <= words.len(),
{
    let ends = crate::segments::boundaries(words);
    crate::segments::law_boundaries(words);
    assert forall|k: int| 0 <= k < ends.len() implies segment_start(ends, k) <= #[trigger] ends[k]
        && ends[k] <= words.len() by {
        if k > 0 && k == ends.len() - 1 {
            assert(words.len() - ends[k - 1] >= crate::segments::MIN_SEGMENT_TURNS);
        }
    }
}

/// The parts in which a conversation is digested follow each other from its
/// first turn to its last; none is empty, and none is too large.
pub proof fn law_digestion_covers(turns: Seq<ConversationTurnView>, max_turns: int)
    requires
        max_turns > 0,
    ensures
        is_chain(digestion_spans(turns, max_turns), 0, turns.len() as int, max_turns),
{
    let words = crate::segments::all_words(turns);
    let ends = crate::segments::boundaries(words);
    crate::segments::law_boundaries(words);
    lemma_ends(words);
    lemma_segment_parts(ends, max_turns, ends.len());
}

/// Adds the parts of what lies from `from` up to `to`.
fn push_parts(out: &mut Vec<(usize, usize)>, from: usize, to: usize, size: usize)
    requires
        from <= to,
        size > 0,
    ensures
        span_views(final(out)@) == span_views(old(out)@) + parts_between(
            from as int,
            to as int,
            size as int,
        ),
{
    let parts = cut_into_parts(to - from, size);
    let ghost before = span_views(out@);
    let ghost between = parts_between(from as int, to as int, size as int);
    let mut k: usize = 0;
    assert(span_views(out@) == before + between.take(0));
    while k < parts.len()
        invariant
            k <= parts.len(),
            from <= to,
            between.len() == parts.len(),
            forall|j: int|
                0 <= j < parts.len() ==> between[j] == (
                    from + (#[trigger] parts@[j]).0,
                    from + parts@[j].1,
                ) && parts@[j].0 < parts@[j].1 <= to - from,
            span_views(out@) == before + between.take(k as int),
        decreases parts.len() - k,
    {
        let p: (usize, usize) = parts[k];
        let whole: (usize, usize) = (from + p.0, from + p.1);
        proof {
            assert(between[k as int] == (whole.0 as int, whole.1 as int));
            assert(between.take(k + 1) == between.take(k as int).push(between[k as int]));
            assert(span_views(out@.push(whole)) == span_views(out@).push(between[k as int]));
        }
        out.push(whole);
        k = k + 1;
    }
    assert(between.take(k as int) == between);
}

/// Cuts a conversation into the parts in which it is digested.
pub fn digestion_parts(turns: &Vec<ConversationTurn>, max_turns: usize) -> (r: Vec<(usize, usize)>)
    requires
        max_turns > 0,
    ensures
        span_views(r@) == digestion_spans(
            crate::parser::conversation_views(turns@),
            max_turns as int,
        ),
{
    let ghost words = crate::segments::all_words(crate::parser::conversation_views(turns@));
    let bounds = detect_topic_boundaries(turns);
    let ghost ends = crate::lists::place_views(bounds@);
    proof {
        lemma_ends(words);
    }
    let mut out: Vec<(usize, usize)> = Vec::new();
    let mut from: usize = 0;
    let mut i: usize = 0;
    assert(span_views(out@) == segment_parts(ends, max_turns as int, 0));
    while i < bounds.len()
        invariant
            i <= bounds.len(),
            max_turns > 0,
            ends == crate::lists::place_views(bounds@),
            ends_in_order(ends),
            from == segment_start(ends, i as int),
            span_views(out@) == segment_parts(ends, max_turns as int, i as nat),
        decreases bounds.len() - i,
    {
        let to: usize = bounds[i];
        assert(ends[i as int] == to);
        push_parts(&mut out, from, to, max_turns);
        from = to;
        i = i + 1;
    }
    out
}

// ---- what is known already ----

/// A root that is there, and the contents of its children.
#[derive(Debug)]
pub struct ExistingRootContext {
    pub id: String,
    pub content: String,
    pub children_content: Vec<String>,
}

/// What the context of a root holds.
#[verifier::ext_equal]
pub struct RootContextView {
    pub id: Seq<char>,
    pub content: Seq<char>,
    pub children_content: Seq<Seq<char>>,
}

impl View for ExistingRootContext {
    type V = RootContextView;

    open spec fn view(&self) -> RootContextView {
        RootContextView {
            id: self.id@,
            content: self.content@,
            children_content: crate::text::views(self.children_content@),
        }
    }
}

/// What the contexts of a list hold.
pub open spec fn root_context_views(v: Seq<ExistingRootContext>) -> Seq<RootContextView> {
    Seq::new(v.len(), |i: int| v[i]@)
}

/// The contents of some fragments.
pub open spec fn contents(fs: Seq<FragmentView>) -> Seq<Seq<char>> {
    Seq::new(fs.len(), |i: int| fs[i].content)
}

/// The context of a root.
pub open spec fn root_context(g: StorageView, f: FragmentView) -> RootContextView {
    RootContextView {
        id: crate::fragment::uuid_text(f.id.0),
        content: f.content,
        children_content: contents(crate::storage::children_of(g, f.id)),
    }
}

/// The contexts of all active roots, the most relevant first.
pub open spec fn root_contexts(g: StorageView) -> Seq<RootContextView> {
    Seq::new(
        crate::query::roots_of(g).len(),
        |i: int| root_context(g, crate::query::roots_of(g)[i]),
    )
}

/// The contents of some fragments.
fn copy_contents(fragments: &Vec<Fragment>) -> (r: Vec<String>)
    ensures
        crate::text::views(r@) == contents(crate::fragment::fragment_views(fragments@)),
{
    let mut out: Vec<String> = Vec::new();
    let mut i: usize = 0;
    while i < fragments.len()
        invariant
            i <= fragments.len(),
            out.len() == i,
            forall|k: int| 0 <= k < i ==> (#[trigger] out@[k])@ == fragments@[k].content@,
        decreases fragments.len() - i,
    {
        out.push(fragments[i].content.clone());
        i = i + 1;
    }
    assert(crate::text::views(out@) == contents(crate::fragment::fragment_views(fragments@)));
    out
}

/// The contexts of all active roots.
pub fn existing_roots(db: &LoreDb) -> (r: Vec<ExistingRootContext>)
    requires
        db.wf(),
    ensures
        root_context_views(r@) == root_contexts(db@),
{
    let roots = db.list_roots(None);
    let ghost fs = crate::fragment::fragment_views(roots@);
    let mut out: Vec<ExistingRootContext> = Vec::new();
    let mut i: usize = 0;
    while i < roots.len()
        invariant
            db.wf(),
            i <= roots.len(),
            fs == crate::fragment::fragment_views(roots@),
            out.len() == i,
            forall|k: int| 0 <= k < i ==> (#[trigger] out@[k])@ == root_context(db@, fs[k]),
        decreases roots.len() - i,
    {
        assert(fs[i as int] == roots@[i as int]@);
        let children = db.children(roots[i].id);
        out.push(
            ExistingRootContext {
                id: roots[i].id.as_str(),
                content: roots[i].content.clone(),
                children_content: copy_contents(&children),
            },
        );
        i = i + 1;
    }
    assert(root_context_views(out@) == root_contexts(db@));
    out
}

/// What is known of a topic, for whoever digests new turns.
#[derive(Debug)]
pub struct ExistingTopicContext {
    pub id: String,
    pub summary: String,
    pub content: String,
    pub children_summaries: Vec<String>,
}

/// What the context of a topic holds.
#[verifier::ext_equal]
pub struct TopicContextView {
    pub id: Seq<char>,
    pub summary: Seq<char>,
    pub content: Seq<char>,
    pub children_summaries: Seq<Seq<char>>,
}

impl View for ExistingTopicContext {
    type V = TopicContextView;

    open spec fn view(&self) -> TopicContextView {
        TopicContextView {
            id: self.id@,
            summary: self.summary@,
            content: self.content@,
            children_summaries: crate::text::views(self.children_summaries@),
        }
    }
}

/// What the contexts of a list hold.
pub open spec fn topic_context_views(v: Seq<ExistingTopicContext>) -> Seq<TopicContextView> {
    Seq::new(v.len(), |i: int| v[i]@)
}

/// The summaries of some fragments.
pub open spec fn summaries(fs: Seq<FragmentView>) -> Seq<Seq<char>> {
    Seq::new(fs.len(), |i: int| fs[i].summary)
}

/// The context of a topic.
pub open spec fn topic_context(g: StorageView, f: FragmentView) -> TopicContextView {
    TopicContextView {
        id: crate::fragment::uuid_text(f.id.0),
        summary: f.summary,
        content: f.content,
        children_summaries: summaries(crate::storage::children_of(g, f.id)),
    }
}

/// The contexts of all topics, the most relevant first.
pub open spec fn topic_contexts(g: StorageView) -> Seq<TopicContextView> {
    Seq::new(
        crate::query::roots_of(g).len(),
        |i: int| topic_context(g, crate::query::roots_of(g)[i]),
    )
}

/// The summaries of some fragments.
fn copy_summaries(fragments: &Vec<Fragment>) -> (r: Vec<String>)
    ensures
        crate::text::views(r@) == summaries(crate::fragment::fragment_views(fragments@)),
{
    let mut out: Vec<String> = Vec::new();
    let mut i: usize = 0;
    while i < fragments.len()
        invariant
            i <= fragments.len(),
            out.len() == i,
            forall|k: int| 0 <= k < i ==> (#[trigger] out@[k])@ == fragments@[k].summary@,
        decreases fragments.len() - i,
    {
        out.push(fragments[i].summary.clone());
        i = i + 1;
    }
    assert(crate::text::views(out@) == summaries(crate::fragment::fragment_views(fragments@)));
    out
}

/// The contexts of all topics.
pub fn existing_topics(db: &LoreDb) -> (r: Vec<ExistingTopicContext>)
    requires
        db.wf(),
    ensures
        topic_context_views(r@) == topic_contexts(db@),
{
    let topics = db.list_topics();
    let ghost fs = crate::fragment::fragment_views(topics@);
    let mut out: Vec<ExistingTopicContext> = Vec::new();
    let mut i: usize = 0;
    while i < topics.len()
        invariant
            db.wf(),
            i <= topics.len(),
            fs == crate::fragment::fragment_views(topics@),
            out.len() == i,
            forall|k: int| 0 <= k < i ==> (#[trigger] out@[k])@ == topic_context(db@, fs[k]),
        decreases topics.len() - i,
    {
        assert(fs[i as int] == topics@[i as int]@);
        let children = db.children(topics[i].id);
        out.push(
            ExistingTopicContext {
                id: topics[i].id.as_str(),
                summary: topics[i].summary.clone(),
                content: topics[i].content.clone(),
                children_summaries: copy_summaries(&children),
            },
        );
        i = i + 1;
    }
    assert(topic_context_views(out@) == topic_contexts(db@));
    out
}

// ---- work ----

/// What is to be done for one conversation log.
#[derive(Debug)]
pub struct WorkItem {
    pub file_path: String,
    pub session_id: Option<String>,
    /// The parts in which the new turns are digested, by their first turn and
    /// the turn behind their last one.
    pub parts: Vec<(usize, usize)>,
    /// Where to go on reading the next time.
    pub new_offset: i64,
}

/// Plans the work for the new turns of a log; there is none where there are no
/// new turns.
pub fn plan_work(file_path: &str, turns: usize, new_offset: i64, batch_size: usize) -> (r: Option<
    WorkItem,
>)
    requires
        batch_size > 0,
    ensures
        match r {
            Some(w) => {
                &&& turns > 0
                &&& w.file_path@ == file_path@
                &&& crate::fragment::text_view(w.session_id) == crate::paths::path_stem(file_path@)
                &&& w.new_offset == new_offset
                &&& w.parts.len() == crate::contradiction::part_count(
                    turns as int,
                    batch_size as int,
                )
                &&& forall|k: int|
                    0 <= k < w.parts.len() ==> ((#[trigger] w.parts@[k]).0 as int, w.parts@[k].1 as int)
                        == crate::contradiction::part_of(turns as int, batch_size as int, k)
            },
            None => turns == 0,
        },
{
    if turns == 0 {
        return None;
    }
    Some(
        WorkItem {
            file_path: file_path.to_owned(),
            session_id: file_stem(file_path),
            parts: cut_into_parts(turns, batch_size),
            new_offset,
        },
    )
}

// ---- laws ----

/// At most ten sessions are digested in a run, those that have waited longest.
pub proof fn law_ten_sessions_at_most(g: StorageView, idle_threshold_secs: i64, now: i64)
    ensures
        ({
            let idle = crate::storage::idle_sessions(g.turns, idle_threshold_secs, now);
            let some = crate::lists::first_items(idle, MAX_SESSIONS_PER_CONSOLIDATION as int);
            &&& idle.len() <= 10 ==> some == idle
            &&& idle.len() > 10 ==> some == idle.take(10)
        }),
{
}

/// A turn that waits is among the waiting turns of its own session, behind the others,
/// with its role and text; the other sessions have the turns that they had.
pub proof fn law_waiting_turns(
    g: StorageView,
    t: crate::storage::TurnView,
    file_path: Seq<char>,
)
    ensures
        ({
            let more = StorageView { turns: g.turns.push(t), ..g };
            &&& g.turns.len() == 0 ==> waiting_turns(g, file_path).len() == 0
            &&& t.file_path == file_path ==> waiting_turns(more, file_path) == waiting_turns(
                g,
                file_path,
            ).push(ConversationTurnView { role: t.role, text: t.text })
            &&& t.file_path != file_path ==> waiting_turns(more, file_path) == waiting_turns(
                g,
                file_path,
            )
        }),
{
    let keep = crate::storage::from_file(file_path);
    crate::lists::lemma_filter_push(g.turns, keep, t);
    if g.turns.len() == 0 {
        crate::lists::lemma_filter_empty(g.turns, keep);
    }
    if t.file_path == file_path {
        let more = StorageView { turns: g.turns.push(t), ..g };
        assert(waiting_turns(more, file_path) == waiting_turns(g, file_path).push(
            ConversationTurnView { role: t.role, text: t.text },
        ));
    }
}

proof fn lemma_parts_are_full(ends: Seq<int>, size: int, n: nat)
    requires
        ends_in_order(ends),
        size > 0,
        n <= ends.len(),
    ensures
        ({
            let parts = segment_parts(ends, size, n);
            forall|p: int|
                0 <= p < parts.len() ==> exists|k: int|
                    #![trigger ends[k]]
                    0 <= k < n && segment_start(ends, k) <= (#[trigger] parts[p]).0 && parts[p].1
                        <= ends[k] && (parts[p].1 == ends[k] || parts[p].1 - parts[p].0 == size)
        }),
    decreases n,
{
    if n > 0 {
        lemma_parts_are_full(ends, size, (n - 1) as nat);
        let front = segment_parts(ends, size, (n - 1) as nat);
        let from = segment_start(ends, n - 1);
        let to = ends[n - 1];
        let back = parts_between(from, to, size);
        let parts = segment_parts(ends, size, n);
        assert(parts == front + back);
        assert forall|p: int| 0 <= p < parts.len() implies exists|k: int|
            #![trigger ends[k]]
            0 <= k < n && segment_start(ends, k) <= (#[trigger] parts[p]).0 && parts[p].1
                <= ends[k] && (parts[p].1 == ends[k] || parts[p].1 - parts[p].0 == size) by {
            if p < front.len() {
                assert(parts[p] == front[p]);
                let k = choose|k: int|
                    #![trigger ends[k]]
                    0 <= k < n - 1 && segment_start(ends, k) <= front[p].0 && front[p].1 <= ends[k]
                        && (front[p].1 == ends[k] || front[p].1 - front[p].0 == size);
                assert(0 <= k < n && parts[p].1 <= ends[k]);
            } else {
                let m = p - front.len();
                assert(parts[p] == back[m]);
                crate::contradiction::law_cut_into_parts(to - from, size, m);
                let q = crate::contradiction::part_of(to - from, size, m);
                assert(0 <= m * size) by (nonlinear_arith)
                    requires
                        m >= 0,
                        size > 0,
                ;
                assert(parts[p] == (from + q.0, from + q.1));
                assert(segment_start(ends, n - 1) <= parts[p].0 && parts[p].1 <= ends[n - 1]);
            }
        }
    }
}

/// What is digested at once belongs together: no part reaches over a place where the
/// topic shifts, and one that ends elsewhere is as large as a part can be.
pub proof fn law_parts_stay_within_topics(turns: Seq<ConversationTurnView>, max_turns: int, p: int)
    requires
        max_turns > 0,
        0 <= p < digestion_spans(turns, max_turns).len(),
    ensures
        ({
            let part = digestion_spans(turns, max_turns)[p];
            let ends = crate::segments::boundaries(crate::segments::all_words(turns));
            &&& forall|k: int| 0 <= k < ends.len() ==> !(part.0 < #[trigger] ends[k] < part.1)
            &&& ends.contains(part.1) || part.1 - part.0 == max_turns
        }),
{
    let words = crate::segments::all_words(turns);
    let ends = crate::segments::boundaries(words);
    let parts = segment_parts(ends, max_turns, ends.len());
    let part = parts[p];
    lemma_ends(words);
    lemma_parts_are_full(ends, max_turns, ends.len());
    let k = choose|k: int|
        #![trigger ends[k]]
        0 <= k < ends.len() && segment_start(ends, k) <= parts[p].0 && parts[p].1 <= ends[k] && (
        parts[p].1 == ends[k] || parts[p].1 - parts[p].0 == max_turns);
    assert forall|j: int| 0 <= j < ends.len() implies !(part.0 < #[trigger] ends[j] < part.1) by {
        if j < k {
            lemma_ends_increase(ends, j, k - 1);
        } else {
            lemma_ends_increase(ends, k, j);
        }
    }
}

proof fn lemma_ends_increase(ends: Seq<int>, i: int, j: int)
    requires
        ends_in_order(ends),
        0 <= i <= j < ends.len(),
    ensures
        ends[i] <= ends[j],
    decreases j - i,
{
    if i < j {
        lemma_ends_increase(ends, i, j - 1);
        assert(segment_start(ends, j) <= ends[j]);
    }
}

/// What an extraction is told of the knowledge that is there: of every active root, the
/// more relevant ones first, its identifier, its content and summary, and the contents or
/// summaries of all its children in their order.
pub proof fn law_contexts_of_roots(g: StorageView, i: int)
    requires
        0 <= i < crate::query::roots_of(g).len(),
    ensures
        ({
            let root = crate::query::roots_of(g)[i];
            let children = crate::storage::children_of(g, root.id);
            let r = root_contexts(g)[i];
            let t = topic_contexts(g)[i];
            &&& root_contexts(g).len() == crate::query::roots_of(g).len()
            &&& topic_contexts(g).len() == crate::query::roots_of(g).len()
            &&& r.id == crate::fragment::uuid_text(root.id.0) && t.id == r.id
            &&& r.content == root.content && t.content == root.content && t.summary == root.summary
            &&& r.children_content.len() == children.len()
            &&& t.children_summaries.len() == children.len()
            &&& forall|k: int|
                0 <= k < children.len() ==> r.children_content[k] == (
                #[trigger] children[k]).content && t.children_summaries[k] == children[k].summary
        }),
{
}

} // verus!
