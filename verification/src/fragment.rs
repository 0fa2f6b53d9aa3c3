//! Fragments: the units of knowledge, and what identifies and describes them.

use vstd::prelude::*;

use crate::fixed::{clamp, ONE};
use crate::relevance::decay_rate_for_importance;
use crate::text::same;

verus! {

// ---- identifiers ----

/// Unique identifier of a fragment: the 128 bits of a UUID.
#[derive(Debug, Clone, Copy, PartialEq, Eq, Hash, Structural)]
pub struct FragmentId(pub u128);

/// The bits that tell a random UUID from others: version 4, variant 1.
pub open spec fn is_random_uuid(v: u128) -> bool {
    v & 0xf000_c000_0000_0000_0000 == 0x4000_8000_0000_0000_0000
}

/// The hexadecimal digit of a number below 16, in lower case.
pub open spec fn hex_digit(n: nat) -> char {
    if n < 10 {
        (n + '0' as nat) as char
    } else {
        (n - 10 + 'a' as nat) as char
    }
}

/// The digit of a number at a place, counted from the right.
pub open spec fn hex_at(v: nat, place: nat) -> char
    decreases place,
{
    if place == 0 {
        hex_digit(v % 16)
    } else {
        hex_at(v / 16, (place - 1) as nat)
    }
}

/// The lower-case form of a UUID: hexadecimal digits in groups of 8, 4, 4, 4
/// and 12 with hyphens between them.
pub open spec fn uuid_text(v: u128) -> Seq<char> {
    Seq::new(
        36,
        |i: int|
            if i == 8 || i == 13 || i == 18 || i == 23 {
                '-'
            } else {
                let hyphens = if i < 8 {
                    0int
                } else if i < 13 {
                    1
                } else if i < 18 {
                    2
                } else if i < 23 {
                    3
                } else {
                    4
                };
                hex_at(v as nat, (31 - (i - hyphens)) as nat)
            },
    )
}

/// What [`uuid::Uuid::parse_str`] reads in a text, if it accepts it.
pub uninterp spec fn uuid_parsed(s: Seq<char>) -> Option<u128>;

/// Calls [`uuid::Uuid::new_v4`]: 122 random bits, and six fixed ones that mark
/// a random UUID. Nothing is said of the random bits.
#[verifier::external_body]
pub(crate) fn random_uuid() -> (r: u128)
    ensures
        is_random_uuid(r),
{
    uuid::Uuid::new_v4().as_u128()
}

/// Calls [`uuid::Uuid::parse_str`], which accepts the plain, hyphenated, braced
/// and URN forms of a UUID; the result is a function of the text alone.
#[verifier::external_body]
pub(crate) fn parse_uuid(s: &str) -> (r: Option<u128>)
    ensures
        r == uuid_parsed(s@),
{
    uuid::Uuid::parse_str(s).ok().map(|u| u.as_u128())
}

/// Formats a [`uuid::Uuid`] with its `Display`: the hyphenated form in lower
/// case, which `parse_str` reads back as the same UUID.
#[verifier::external_body]
pub(crate) fn format_uuid(v: u128) -> (r: String)
    ensures
        r@ == uuid_text(v),
        uuid_parsed(r@) == Some(v),
{
    uuid::Uuid::from_u128(v).to_string()
}

/// Why a text is no identifier.
#[derive(Debug, Clone, Copy, PartialEq, Eq, Structural)]
pub struct InvalidId;

impl FragmentId {
    /// A new random identifier.
    pub fn new() -> (r: Self)
        ensures
            is_random_uuid(r.0),
    {
        FragmentId(random_uuid())
    }

    /// Reads an identifier.
    pub fn parse(s: &str) -> (r: Result<Self, InvalidId>)
        ensures
            match r {
                Ok(id) => uuid_parsed(s@) == Some(id.0),
                Err(_) => uuid_parsed(s@) is None,
            },
    {
        match parse_uuid(s) {
            Some(v) => Ok(FragmentId(v)),
            None => Err(InvalidId),
        }
    }

    /// Writes an identifier in its hyphenated form.
    pub fn as_str(&self) -> (r: String)
        ensures
            r@ == uuid_text(self.0),
            uuid_parsed(r@) == Some(self.0),
    {
        format_uuid(self.0)
    }
}

impl Default for FragmentId {
    fn default() -> (r: Self)
        ensures
            is_random_uuid(r.0),
    {
        FragmentId::new()
    }
}

// ---- time ----

/// Calls [`std::time::SystemTime::elapsed`] on the start of the Unix epoch:
/// the seconds since then by the clock of the machine, or nothing while the
/// clock stands before it. Nothing is said of the result.
#[verifier::external_body]
fn epoch_seconds() -> (r: Option<u64>) {
    std::time::SystemTime::UNIX_EPOCH.elapsed().ok().map(|d| d.as_secs())
}

/// The time to use for a reading of the clock: the end of the range of `i64`
/// where the reading lies behind it, the epoch where there is none.
pub fn timestamp(seconds: Option<u64>) -> (r: i64)
    ensures
        r == match seconds {
            Some(s) => if s > i64::MAX {
                i64::MAX as int
            } else {
                s as int
            },
            None => 0,
        },
{
    match seconds {
        Some(s) => if s > i64::MAX as u64 {
            i64::MAX
        } else {
            s as i64
        },
        None => 0,
    }
}

/// The current time, in seconds since the Unix epoch.
pub fn now_unix() -> (r: i64)
    ensures
        r >= 0,
{
    timestamp(epoch_seconds())
}

// ---- metadata ----

/// Free-form notes on a fragment: texts under distinct keys.
#[derive(Debug)]
pub struct Metadata {
    entries: Vec<(String, String)>,
}

impl View for Metadata {
    type V = Map<Seq<char>, Seq<char>>;

    closed spec fn view(&self) -> Map<Seq<char>, Seq<char>> {
        entries_map(self.entries@)
    }
}

/// The keys and values of a list of entries; a later entry wins over an earlier
/// one with the same key.
pub open spec fn entries_map(entries: Seq<(String, String)>) -> Map<Seq<char>, Seq<char>>
    decreases entries.len(),
{
    if entries.len() == 0 {
        Map::empty()
    } else {
        entries_map(entries.drop_last()).insert(entries.last().0@, entries.last().1@)
    }
}

/// No two entries have the same key.
pub open spec fn unique_keys(entries: Seq<(String, String)>) -> bool {
    forall|i: int, j: int|
        0 <= i < j < entries.len() ==> (#[trigger] entries[i]).0@ != (#[trigger] entries[j]).0@
}

/// An entry has the key of one of the first `n` entries of a list.
spec fn comes_from(all: Seq<(String, String)>, n: int, e: (String, String)) -> bool {
    exists|i: int| 0 <= i < n && (#[trigger] all[i]).0@ == e.0@
}

impl Metadata {
    #[verifier::type_invariant]
    spec fn has_unique_keys(&self) -> bool {
        unique_keys(self.entries@)
    }

    /// No notes.
    pub fn new() -> (r: Self)
        ensures
            r@ == Map::<Seq<char>, Seq<char>>::empty(),
    {
        Metadata { entries: Vec::new() }
    }

    /// Puts a note under a key, in place of the one that was there.
    pub fn insert(&mut self, key: String, value: String)
        ensures
            final(self)@ == old(self)@.insert(key@, value@),
    {
        proof {
            use_type_invariant(&*self);
        }
        let ghost all = self.entries@;
        let mut out: Vec<(String, String)> = Vec::new();
        let mut i: usize = 0;
        assert(entries_map(out@) == entries_map(all.take(0)).remove(key@));
        while i < self.entries.len()
            invariant
                i <= self.entries.len(),
                all == self.entries@,
                unique_keys(all),
                entries_map(out@) == entries_map(all.take(i as int)).remove(key@),
                unique_keys(out@),
                forall|j: int| 0 <= j < out.len() ==> comes_from(all, i as int, #[trigger] out@[j]),
                forall|j: int| 0 <= j < out.len() ==> (#[trigger] out@[j]).0@ != key@,
            decreases self.entries.len() - i,
        {
            let ghost e = all[i as int];
            proof {
                assert(all.take(i + 1).drop_last() == all.take(i as int));
                assert(all.take(i + 1).last() == e);
            }
            if !same(self.entries[i].0.as_str(), key.as_str()) {
                let ghost before = out@;
                out.push((self.entries[i].0.clone(), self.entries[i].1.clone()));
                proof {
                    assert(out@.drop_last() == before);
                    assert(comes_from(all, i + 1, out@.last()));
                    assert forall|j: int| 0 <= j < out.len() implies comes_from(
                        all,
                        i + 1,
                        #[trigger] out@[j],
                    ) by {
                        if j < before.len() {
                            assert(comes_from(all, i as int, before[j]));
                        }
                    }
                    assert forall|j: int, k: int| 0 <= j < k < out.len() implies (
                    #[trigger] out@[j]).0@ != (#[trigger] out@[k]).0@ by {
                        if k == before.len() {
                            assert(comes_from(all, i as int, before[j]));
                        }
                    }
                }
            }
            assert(entries_map(out@) == entries_map(all.take(i + 1)).remove(key@));
            i = i + 1;
        }
        assert(all.take(i as int) == all);
        let ghost rest = out@;
        let ghost (k, v) = (key@, value@);
        out.push((key, value));
        assert(out@.drop_last() == rest);
        assert(entries_map(all).remove(k).insert(k, v) == entries_map(all).insert(k, v));
        self.entries = out;
    }

    /// The note under a key.
    pub fn get(&self, key: &str) -> (r: Option<String>)
        ensures
            match r {
                Some(v) => self@.dom().contains(key@) && self@[key@] == v@,
                None => !self@.dom().contains(key@),
            },
    {
        let mut i: usize = self.entries.len();
        assert(self.entries@.take(i as int) == self.entries@);
        while i > 0
            invariant
                i <= self.entries.len(),
                self@.dom().contains(key@) <==> entries_map(
                    self.entries@.take(i as int),
                ).dom().contains(key@),
                self@.dom().contains(key@) ==> self@[key@] == entries_map(
                    self.entries@.take(i as int),
                )[key@],
            decreases i,
        {
            proof {
                assert(self.entries@.take(i as int).drop_last() == self.entries@.take(i - 1));
                assert(self.entries@.take(i as int).last() == self.entries@[i - 1]);
            }
            if same(self.entries[i - 1].0.as_str(), key) {
                return Some(self.entries[i - 1].1.clone());
            }
            i = i - 1;
        }
        None
    }

    /// Tells whether there is no note.
    pub fn is_empty(&self) -> (r: bool)
        ensures
            r == (self@ == Map::<Seq<char>, Seq<char>>::empty()),
    {
        proof {
            if self.entries@.len() > 0 {
                assert(self@.dom().contains(self.entries@.last().0@));
            }
        }
        self.entries.len() == 0
    }

    /// The notes as a list of entries with distinct keys.
    pub fn to_entries(&self) -> (r: Vec<(String, String)>)
        ensures
            entries_map(r@) == self@,
            unique_keys(r@),
    {
        proof {
            use_type_invariant(&*self);
        }
        let mut out: Vec<(String, String)> = Vec::new();
        let mut i: usize = 0;
        while i < self.entries.len()
            invariant
                i <= self.entries.len(),
                out@ == self.entries@.take(i as int),
            decreases self.entries.len() - i,
        {
            out.push((self.entries[i].0.clone(), self.entries[i].1.clone()));
            i = i + 1;
        }
        assert(self.entries@.take(i as int) == self.entries@);
        out
    }

    /// The notes that a list of entries holds; a later entry takes the place of an
    /// earlier one with the same key.
    pub fn from_entries(entries: Vec<(String, String)>) -> (r: Self)
        ensures
            r@ == entries_map(entries@),
    {
        let mut notes = Metadata::new();
        let mut i: usize = 0;
        assert(notes@ == entries_map(entries@.take(0)));
        while i < entries.len()
            invariant
                i <= entries.len(),
                notes@ == entries_map(entries@.take(i as int)),
            decreases entries.len() - i,
        {
            proof {
                assert(entries@.take(i + 1).drop_last() == entries@.take(i as int));
                assert(entries@.take(i + 1).last() == entries@[i as int]);
            }
            notes.insert(entries[i].0.clone(), entries[i].1.clone());
            i = i + 1;
        }
        assert(entries@.take(i as int) == entries@);
        notes
    }
}

impl Clone for Metadata {
    fn clone(&self) -> (r: Self)
        ensures
            r@ == self@,
    {
        Metadata { entries: self.to_entries() }
    }
}

impl Default for Metadata {
    fn default() -> (r: Self)
        ensures
            r@ == Map::<Seq<char>, Seq<char>>::empty(),
    {
        Metadata::new()
    }
}

// ---- fragments ----

/// A unit of knowledge, like a neuron ensemble that encodes a concept.
///
/// Fragments form interconnected abstraction trees: higher nodes capture
/// general concepts, deeper ones stay close to the original conversation, and
/// associative edges link related fragments across trees.
#[derive(Debug)]
pub struct Fragment {
    pub id: FragmentId,
    pub content: String,
    /// A short title; empty where there is none.
    pub summary: String,
    pub depth: u32,
    /// Direction of the content in the embedding space, see
    /// [`crate::embedding`]; empty where it was not computed.
    pub embedding: Vec<i32>,
    pub created_at: i64,
    pub last_accessed: i64,
    pub access_count: u32,
    pub source_session: Option<String>,
    pub superseded_by: Option<FragmentId>,
    pub metadata: Metadata,
    /// Intrinsic salience, from zero to one. High for bug fixes, decisions and
    /// corrections; low for routine observations.
    pub importance: i64,
    /// Relevance as of the last access or consolidation.
    pub relevance_score: i64,
    /// Exponential decay constant per day.
    pub decay_rate: i64,
    /// When the fragment was last accessed or reinforced.
    pub last_reinforced: i64,
}

/// What a fragment holds.
#[verifier::ext_equal]
pub struct FragmentView {
    pub id: FragmentId,
    pub content: Seq<char>,
    pub summary: Seq<char>,
    pub depth: u32,
    pub embedding: Seq<i32>,
    pub created_at: i64,
    pub last_accessed: i64,
    pub access_count: u32,
    pub source_session: Option<Seq<char>>,
    pub superseded_by: Option<FragmentId>,
    pub metadata: Map<Seq<char>, Seq<char>>,
    pub importance: i64,
    pub relevance_score: i64,
    pub decay_rate: i64,
    pub last_reinforced: i64,
}

/// The view of a text that may be missing.
pub open spec fn text_view(s: Option<String>) -> Option<Seq<char>> {
    match s {
        Some(t) => Some(t@),
        None => None,
    }
}

impl View for Fragment {
    type V = FragmentView;

    open spec fn view(&self) -> FragmentView {
        FragmentView {
            id: self.id,
            content: self.content@,
            summary: self.summary@,
            depth: self.depth,
            embedding: self.embedding@,
            created_at: self.created_at,
            last_accessed: self.last_accessed,
            access_count: self.access_count,
            source_session: text_view(self.source_session),
            superseded_by: self.superseded_by,
            metadata: self.metadata@,
            importance: self.importance,
            relevance_score: self.relevance_score,
            decay_rate: self.decay_rate,
            last_reinforced: self.last_reinforced,
        }
    }
}

/// A fresh fragment: middling importance, full relevance, no access yet.
pub open spec fn fresh_fragment(
    id: FragmentId,
    content: Seq<char>,
    depth: u32,
    now: i64,
) -> FragmentView {
    FragmentView {
        id,
        content,
        summary: Seq::empty(),
        depth,
        embedding: Seq::empty(),
        created_at: now,
        last_accessed: now,
        access_count: 0,
        source_session: None,
        superseded_by: None,
        metadata: Map::empty(),
        importance: 500_000_000,
        relevance_score: ONE,
        decay_rate: 35_000_000,
        last_reinforced: now,
    }
}

/// A fresh fragment of an importance, which is kept between zero and one and
/// sets the decay rate.
pub open spec fn important_fragment(
    id: FragmentId,
    content: Seq<char>,
    depth: u32,
    importance: int,
    now: i64,
) -> FragmentView {
    let i = crate::fixed::clamped(importance, 0, ONE as int);
    FragmentView {
        importance: i as i64,
        decay_rate: crate::relevance::decay_rate_of(i) as i64,
        ..fresh_fragment(id, content, depth, now)
    }
}

/// Copies a list of numbers.
pub fn copy_numbers(v: &Vec<i32>) -> (r: Vec<i32>)
    ensures
        r@ == v@,
{
    let mut out: Vec<i32> = Vec::new();
    let mut i: usize = 0;
    while i < v.len()
        invariant
            i <= v.len(),
            out@ == v@.take(i as int),
        decreases v.len() - i,
    {
        out.push(v[i]);
        i = i + 1;
    }
    assert(v@.take(i as int) == v@);
    out
}

/// Copies a text that may be missing.
pub fn copy_text(s: &Option<String>) -> (r: Option<String>)
    ensures
        text_view(r) == text_view(*s),
{
    match s {
        Some(t) => Some(t.clone()),
        None => None,
    }
}

impl Fragment {
    /// A fresh fragment with a given identifier, as of a given time.
    pub fn new_at(id: FragmentId, content: String, depth: u32, now: i64) -> (r: Self)
        ensures
            r@ == fresh_fragment(id, content@, depth, now),
    {
        Fragment {
            id,
            content,
            summary: String::new(),
            depth,
            embedding: Vec::new(),
            created_at: now,
            last_accessed: now,
            access_count: 0,
            source_session: None,
            superseded_by: None,
            metadata: Metadata::new(),
            importance: 500_000_000,
            relevance_score: ONE,
            decay_rate: 35_000_000,
            last_reinforced: now,
        }
    }

    /// A fresh fragment with a random identifier, as of now.
    pub fn new(content: String, depth: u32) -> (r: Self)
        ensures
            r@ == fresh_fragment(r.id, content@, depth, r.created_at),
            is_random_uuid(r.id.0),
            r.created_at >= 0,
    {
        Fragment::new_at(FragmentId::new(), content, depth, now_unix())
    }

    /// A fresh fragment of an importance, with a given identifier, as of a
    /// given time.
    pub fn new_with_importance_at(
        id: FragmentId,
        content: String,
        depth: u32,
        importance: i64,
        now: i64,
    ) -> (r: Self)
        ensures
            r@ == important_fragment(id, content@, depth, importance as int, now),
    {
        let mut frag = Fragment::new_at(id, content, depth, now);
        frag.importance = clamp(importance, 0, ONE);
        frag.decay_rate = decay_rate_for_importance(frag.importance);
        frag
    }

    /// A fresh fragment of an importance, with a random identifier, as of now.
    pub fn new_with_importance(content: String, depth: u32, importance: i64) -> (r: Self)
        ensures
            r@ == important_fragment(r.id, content@, depth, importance as int, r.created_at),
            is_random_uuid(r.id.0),
            r.created_at >= 0,
    {
        Fragment::new_with_importance_at(
            FragmentId::new(),
            content,
            depth,
            importance,
            now_unix(),
        )
    }

    /// The same fragment with a summary.
    pub fn with_summary(self, summary: String) -> (r: Self)
        ensures
            r@ == (FragmentView { summary: summary@, ..self@ }),
    {
        let mut frag = self;
        frag.summary = summary;
        frag
    }
}

impl Clone for Fragment {
    fn clone(&self) -> (r: Self)
        ensures
            r@ == self@,
    {
        Fragment {
            id: self.id,
            content: self.content.clone(),
            summary: self.summary.clone(),
            depth: self.depth,
            embedding: copy_numbers(&self.embedding),
            created_at: self.created_at,
            last_accessed: self.last_accessed,
            access_count: self.access_count,
            source_session: copy_text(&self.source_session),
            superseded_by: self.superseded_by,
            metadata: self.metadata.clone(),
            importance: self.importance,
            relevance_score: self.relevance_score,
            decay_rate: self.decay_rate,
            last_reinforced: self.last_reinforced,
        }
    }
}

/// What the fragments of a list hold.
pub open spec fn fragment_views(v: Seq<Fragment>) -> Seq<FragmentView> {
    Seq::new(v.len(), |i: int| v[i]@)
}

/// A fragment with the score that a query gave it.
#[derive(Debug)]
pub struct ScoredFragment {
    pub fragment: Fragment,
    pub score: i64,
}

/// What a scored fragment holds.
#[verifier::ext_equal]
pub struct ScoredView {
    pub fragment: FragmentView,
    pub score: i64,
}

impl View for ScoredFragment {
    type V = ScoredView;

    open spec fn view(&self) -> ScoredView {
        ScoredView { fragment: self.fragment@, score: self.score }
    }
}

/// What the scored fragments of a list hold.
pub open spec fn scored_views(v: Seq<ScoredFragment>) -> Seq<ScoredView> {
    Seq::new(v.len(), |i: int| v[i]@)
}

/// A fragment with the trees of its children.
#[derive(Debug)]
pub struct Tree {
    pub fragment: Fragment,
    pub children: Vec<Tree>,
}

/// What a tree holds.
#[verifier::ext_equal]
pub struct TreeView {
    pub fragment: FragmentView,
    pub children: Seq<TreeView>,
}

/// What a tree holds.
pub open spec fn tree_view(t: Tree) -> TreeView
    decreases t,
{
    TreeView { fragment: t.fragment@, children: forest_view(t.children@) }
}

/// What the trees of a list hold.
pub open spec fn forest_view(v: Seq<Tree>) -> Seq<TreeView>
    decreases v,
{
    if v.len() == 0 {
        Seq::empty()
    } else {
        forest_view(v.drop_last()).push(tree_view(v.last()))
    }
}

// ---- laws ----

/// A fragment starts fully relevant, with the text as its content, neither accessed nor
/// superseded, and with all its times set to now. Its importance lies between zero and
/// one, and is 0.5 unless it is given.
pub proof fn law_new_fragments(
    id: FragmentId,
    content: Seq<char>,
    depth: u32,
    importance: int,
    now: i64,
)
    ensures
        ({
            let f = important_fragment(id, content, depth, importance, now);
            &&& f.id == id && f.content == content && f.depth == depth
            &&& f.summary.len() == 0 && f.embedding.len() == 0
            &&& f.relevance_score == 1_000_000_000
            &&& f.access_count == 0
            &&& f.created_at == now && f.last_accessed == now && f.last_reinforced == now
            &&& f.superseded_by is None && f.source_session is None
            &&& 0 <= importance <= 1_000_000_000 ==> f.importance == importance
            &&& importance < 0 ==> f.importance == 0
            &&& importance > 1_000_000_000 ==> f.importance == 1_000_000_000
            &&& f.decay_rate == crate::relevance::decay_rate_of(f.importance as int)
            &&& fresh_fragment(id, content, depth, now) == important_fragment(
                id,
                content,
                depth,
                500_000_000,
                now,
            )
        }),
{
    crate::relevance::law_decay_rate_falls_evenly(500_000_000, 500_000_000);
    crate::relevance::law_decay_rate_falls_evenly(
        crate::fixed::clamped(importance, 0, ONE as int),
        1_000_000_000,
    );
    crate::relevance::law_decay_rate_falls_evenly(
        0,
        crate::fixed::clamped(importance, 0, ONE as int),
    );
}

/// A UUID is written in 36 characters, with hyphens at their four places and lower-case
/// hexadecimal digits elsewhere.
pub proof fn law_uuid_text(v: u128, i: int)
    requires
        0 <= i < 36,
    ensures
        uuid_text(v).len() == 36,
        i == 8 || i == 13 || i == 18 || i == 23 <==> uuid_text(v)[i] == '-',
        i != 8 && i != 13 && i != 18 && i != 23 ==> ('0' <= uuid_text(v)[i] <= '9') || ('a'
            <= uuid_text(v)[i] <= 'f'),
{
    let hyphens: int = if i < 8 {
        0
    } else if i < 13 {
        1
    } else if i < 18 {
        2
    } else if i < 23 {
        3
    } else {
        4
    };
    lemma_hex_at(v as nat, (31 - (i - hyphens)) as nat);
}

proof fn lemma_hex_at(v: nat, place: nat)
    ensures
        ('0' <= hex_at(v, place) <= '9') || ('a' <= hex_at(v, place) <= 'f'),
    decreases place,
{
    if place > 0 {
        lemma_hex_at(v / 16, (place - 1) as nat);
    }
}

} // verus!
