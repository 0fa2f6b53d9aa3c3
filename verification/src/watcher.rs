//! Which conversation logs there are, and what is new in them.

use vstd::prelude::*;

use crate::fragment::now_unix;
use crate::parser::{parse_jsonl_line, ConversationTurn};
#[allow(unused_imports)]
use crate::parser::ConversationTurnView;
use crate::paths::{has_component, has_extension, join_path, lies_within};
use crate::storage::{Storage, StorageError};
#[allow(unused_imports)]
use crate::storage::StorageView;
use crate::text::{decode, from_chars, to_chars, to_lines};

verus! {

/// Watches the conversation logs below a directory.
#[derive(Debug)]
pub struct FileWatcher {
    pub projects_dir: String,
}

/// A path that leads to a conversation log: a `.jsonl` file that no subagent
/// wrote.
pub open spec fn is_conversation_log() -> spec_fn(Seq<char>) -> bool {
    |path: Seq<char>|
        crate::paths::path_extension(path) == Some("jsonl"@) && !crate::paths::components(
            path,
        ).contains("subagents"@)
}

/// What a path leads to, without following it.
#[derive(Debug, Clone, Copy, PartialEq, Eq, Structural)]
pub enum EntryKind {
    File,
    Directory,
    /// A symbolic link, wherever it leads.
    Link,
}

/// Something that lies below the directory.
#[derive(Debug)]
pub struct FileEntry {
    pub path: String,
    pub kind: EntryKind,
}

/// What an entry holds.
#[verifier::ext_equal]
pub struct EntryView {
    pub path: Seq<char>,
    pub kind: EntryKind,
}

impl View for FileEntry {
    type V = EntryView;

    open spec fn view(&self) -> EntryView {
        EntryView { path: self.path@, kind: self.kind }
    }
}

/// What the entries of a list hold.
pub open spec fn entry_views(v: Seq<FileEntry>) -> Seq<EntryView> {
    Seq::new(v.len(), |i: int| v[i]@)
}

/// A path that leads to a link, or to something below one.
pub open spec fn is_linked(all: Seq<EntryView>, path: Seq<char>) -> bool {
    exists|i: int|
        0 <= i < all.len() && (#[trigger] all[i]).kind == EntryKind::Link && crate::paths::is_within(
            path,
            all[i].path,
        )
}

/// A conversation log that no link leads to.
pub open spec fn is_picked(all: Seq<EntryView>) -> spec_fn(EntryView) -> bool {
    |e: EntryView|
        e.kind == EntryKind::File && is_conversation_log()(e.path) && !is_linked(all, e.path)
}

/// The path of an entry.
pub open spec fn path_of() -> spec_fn(EntryView) -> Seq<char> {
    |e: EntryView| e.path
}

/// The conversation logs among all that lies below the directory.
pub open spec fn conversation_logs(all: Seq<EntryView>) -> Seq<Seq<char>> {
    all.filter(is_picked(all)).map_values(path_of())
}

/// No link, nothing below one and nothing of a subagent is taken for a conversation
/// log; any other `.jsonl` file is.
pub proof fn law_links_are_not_followed(all: Seq<EntryView>, path: Seq<char>)
    ensures
        conversation_logs(all).contains(path) <==> {
            &&& exists|i: int|
                0 <= i < all.len() && (#[trigger] all[i]).kind == EntryKind::File && all[i].path
                    == path
            &&& crate::paths::path_extension(path) == Some("jsonl"@)
            &&& !crate::paths::components(path).contains("subagents"@)
            &&& !is_linked(all, path)
        },
{
    let keep = is_picked(all);
    let kept = all.filter(keep);
    crate::lists::lemma_filter_members(all, keep);
    if conversation_logs(all).contains(path) {
        let k = choose|k: int| 0 <= k < kept.len() && conversation_logs(all)[k] == path;
        assert(keep(kept[k]) && all.contains(kept[k]));
        let i = choose|i: int| 0 <= i < all.len() && all[i] == kept[k];
        assert(all[i].path == path);
    }
    if !is_linked(all, path) && is_conversation_log()(path) && exists|i: int|
        0 <= i < all.len() && (#[trigger] all[i]).kind == EntryKind::File && all[i].path == path {
        let i = choose|i: int|
            0 <= i < all.len() && (#[trigger] all[i]).kind == EntryKind::File && all[i].path
                == path;
        assert(keep(all[i]));
        let k = choose|k: int| 0 <= k < kept.len() && kept[k] == all[i];
        assert(conversation_logs(all)[k] == path);
    }
}

/// The turns that some lines of a log hold.
pub open spec fn lines_turns(lines: Seq<Seq<char>>) -> Seq<ConversationTurnView>
    decreases lines.len(),
{
    if lines.len() == 0 {
        Seq::empty()
    } else {
        match crate::parser::line_turn(lines.last()) {
            Some(t) => lines_turns(lines.drop_last()).push(t),
            None => lines_turns(lines.drop_last()),
        }
    }
}

/// Where reading a file goes on.
pub open spec fn resume_at(g: StorageView, path: Seq<char>) -> i64 {
    if g.watermarks.dom().contains(path) {
        g.watermarks[path].0
    } else {
        0
    }
}

/// Roles and texts of some turns.
pub open spec fn turn_pairs(turns: Seq<ConversationTurnView>) -> Seq<(Seq<char>, Seq<char>)> {
    Seq::new(turns.len(), |i: int| (turns[i].role, turns[i].text))
}

/// Why a file cannot be read: it is no text.
#[derive(Debug, Clone, Copy, PartialEq, Eq, Structural)]
pub struct NotText;

/// Why a file cannot be ingested.
#[derive(Debug, Clone, Copy, PartialEq, Eq, Structural)]
pub enum IngestError {
    NotText,
    Refused(StorageError),
}

/// The bytes of a file behind a position.
pub open spec fn behind(file: Seq<u8>, from: i64) -> Seq<u8> {
    if from <= 0 {
        file
    } else if from <= file.len() {
        file.skip(from as int)
    } else {
        Seq::empty()
    }
}

/// The turns of a file behind its watermark, and where to go on the next time: at
/// the end of the file. There is nothing new in a file that is no longer than its
/// watermark, or longer than a position can tell.
pub open spec fn new_turns(g: StorageView, path: Seq<char>, file: Seq<u8>) -> Result<
    (Seq<ConversationTurnView>, i64),
    NotText,
> {
    let from = resume_at(g, path);
    let tail = behind(file, from);
    if file.len() <= from || file.len() > i64::MAX {
        Ok((Seq::empty(), from))
    } else if vstd::utf8::valid_utf8(tail) {
        Ok(
            (
                lines_turns(crate::text::lines(vstd::utf8::decode_utf8(tail))),
                file.len() as i64,
            ),
        )
    } else {
        Err(NotText)
    }
}

/// What is left of a memory by the ingestion of a file, and how many turns are
/// staged by it. A file without new turns is left to be read again.
pub open spec fn ingestion_of(g: StorageView, path: Seq<char>, file: Seq<u8>, now: i64) -> (
    StorageView,
    Result<usize, IngestError>,
) {
    match new_turns(g, path, file) {
        Ok(news) => if news.0.len() == 0 {
            (g, Ok(0))
        } else if g.next_turn + news.0.len() > i64::MAX {
            (g, Err(IngestError::Refused(StorageError::Full)))
        } else {
            (
                StorageView {
                    turns: crate::storage::staged(
                        g.turns,
                        path,
                        turn_pairs(news.0),
                        g.next_turn,
                        now,
                    ),
                    next_turn: (g.next_turn + news.0.len()) as i64,
                    watermarks: g.watermarks.insert(path, (news.1, now)),
                    ..g
                },
                Ok(news.0.len() as usize),
            )
        },
        Err(_) => (g, Err(IngestError::NotText)),
    }
}

/// Nothing is read twice: once the watermark stands where a reading ended, there
/// is nothing new in a file that has not changed, and the watermark stays.
pub proof fn law_nothing_is_read_twice(
    g: StorageView,
    path: Seq<char>,
    file: Seq<u8>,
    at: i64,
)
    ensures
        new_turns(g, path, file) matches Ok(news) ==> new_turns(
            StorageView { watermarks: g.watermarks.insert(path, (news.1, at)), ..g },
            path,
            file,
        ) == Ok::<(Seq<ConversationTurnView>, i64), NotText>((Seq::empty(), news.1)),
{
}

/// No turn is staged twice: a second ingestion of a file that has not changed
/// changes nothing.
pub proof fn law_no_turn_twice(
    g: StorageView,
    path: Seq<char>,
    file: Seq<u8>,
    now: i64,
    later: i64,
)
    requires
        ingestion_of(g, path, file, now).1 is Ok,
    ensures
        ({
            let after = ingestion_of(g, path, file, now).0;
            ingestion_of(after, path, file, later) == (after, Ok::<usize, IngestError>(0))
        }),
{
}

/// The ingestion of a file leaves fragments, edges, and the turns and watermarks
/// of all other files as they are.
pub proof fn law_ingestion_keeps_the_rest(
    g: StorageView,
    path: Seq<char>,
    file: Seq<u8>,
    now: i64,
    other: Seq<char>,
)
    requires
        other != path,
    ensures
        ({
            let after = ingestion_of(g, path, file, now).0;
            &&& after.fragments == g.fragments
            &&& after.edges == g.edges
            &&& resume_at(after, other) == resume_at(g, other)
            &&& after.turns.filter(crate::storage::from_file(other)) == g.turns.filter(
                crate::storage::from_file(other),
            )
        }),
{
    if let Ok(news) = new_turns(g, path, file) {
        crate::storage::law_staged_turns_read_back(
            g.turns,
            path,
            turn_pairs(news.0),
            g.next_turn,
            now,
            other,
        );
    }
}

/// Tells whether a path leads to a link, or to something below one.
fn find_link(entries: &Vec<FileEntry>, path: &str) -> (r: bool)
    ensures
        r == is_linked(entry_views(entries@), path@),
{
    let ghost all = entry_views(entries@);
    let mut i: usize = 0;
    while i < entries.len()
        invariant
            i <= entries.len(),
            all == entry_views(entries@),
            forall|k: int|
                0 <= k < i && (#[trigger] all[k]).kind == EntryKind::Link
                    ==> !crate::paths::is_within(path@, all[k].path),
        decreases entries.len() - i,
    {
        assert(all[i as int] == entries@[i as int]@);
        if entries[i].kind == EntryKind::Link && lies_within(path, entries[i].path.as_str()) {
            return true;
        }
        i = i + 1;
    }
    false
}

impl FileWatcher {
    /// Watches the projects of an assistant below a home directory.
    pub fn new(home: Option<&str>, assistant: &str) -> (r: Self)
        ensures
            r.projects_dir@ == crate::paths::joined_path(
                crate::paths::joined_path(
                    crate::paths::home_or_here(crate::text::optional_text(home)),
                    "."@ + assistant@,
                ),
                "projects"@,
            ),
    {
        let mut dir: String = ".".to_owned();
        dir.append(assistant);
        let base = match home {
            Some(h) => join_path(h, dir.as_str()),
            None => join_path(".", dir.as_str()),
        };
        FileWatcher { projects_dir: join_path(base.as_str(), "projects") }
    }

    /// Picks the conversation logs out of a list of all that lies below the
    /// directory. Links are not followed.
    pub fn find_conversation_files(&self, entries: &Vec<FileEntry>) -> (r: Vec<String>)
        ensures
            crate::text::views(r@) == conversation_logs(entry_views(entries@)),
            forall|k: int|
                0 <= k < r.len() ==> !is_linked(entry_views(entries@), (#[trigger] r@[k])@),
    {
        let ghost all = entry_views(entries@);
        let ghost keep = is_picked(all);
        let mut out: Vec<String> = Vec::new();
        let mut i: usize = 0;
        proof {
            crate::lists::lemma_filter_none(all, keep);
            assert(crate::text::views(out@) == all.take(0).filter(keep).map_values(path_of()));
        }
        while i < entries.len()
            invariant
                i <= entries.len(),
                all == entry_views(entries@),
                keep == is_picked(all),
                crate::text::views(out@) == all.take(i as int).filter(keep).map_values(path_of()),
                forall|k: int| 0 <= k < out.len() ==> !is_linked(all, (#[trigger] out@[k])@),
            decreases entries.len() - i,
        {
            let path = entries[i].path.as_str();
            let ghost before = all.take(i as int).filter(keep);
            proof {
                crate::lists::lemma_filter_next(all, keep, i as int);
                assert(all[i as int] == entries@[i as int]@);
            }
            if entries[i].kind == EntryKind::File && has_extension(path, "jsonl") && !has_component(
                path,
                "subagents",
            ) && !find_link(entries, path) {
                let copy = entries[i].path.clone();
                assert(crate::text::views(out@.push(copy)) == crate::text::views(out@).push(copy@));
                assert(before.push(all[i as int]).map_values(path_of()) == before.map_values(
                    path_of(),
                ).push(all[i as int].path));
                out.push(copy);
            }
            i = i + 1;
        }
        assert(all.take(i as int) == all);
        out
    }

    /// Where reading a file goes on: at its watermark, or at its beginning.
    pub fn resume_offset(&self, file_path: &str, storage: &Storage) -> (r: i64)
        ensures
            r == resume_at(storage@, file_path@),
    {
        match storage.get_watermark(file_path) {
            Some(w) => w.0,
            None => 0,
        }
    }

    /// Reads the turns of a file behind its watermark, and tells where to go on
    /// the next time.
    pub fn read_new_turns(&self, file_path: &str, storage: &Storage, file: &Vec<u8>) -> (r: Result<
        (Vec<ConversationTurn>, i64),
        NotText,
    >)
        ensures
            match r {
                Ok(news) => new_turns(storage@, file_path@, file@) == Ok::<
                    (Seq<ConversationTurnView>, i64),
                    NotText,
                >((crate::parser::conversation_views(news.0@), news.1)),
                Err(_) => new_turns(storage@, file_path@, file@) is Err,
            },
    {
        let from: i64 = self.resume_offset(file_path, storage);
        let mut turns: Vec<ConversationTurn> = Vec::new();
        if file.len() as i128 <= from as i128 || file.len() as i128 > i64::MAX as i128 {
            assert(crate::parser::conversation_views(turns@) == Seq::<
                ConversationTurnView,
            >::empty());
            return Ok((turns, from));
        }
        let mut i: usize = if from <= 0 {
            0
        } else {
            from as usize
        };
        let ghost start = i as int;
        let mut bytes: Vec<u8> = Vec::new();
        while i < file.len()
            invariant
                0 <= start <= i <= file.len(),
                bytes@ == file@.subrange(start, i as int),
            decreases file.len() - i,
        {
            assert(file@.subrange(start, i + 1) == file@.subrange(start, i as int).push(
                file@[i as int],
            ));
            bytes.push(file[i]);
            i = i + 1;
        }
        assert(bytes@ == behind(file@, from));
        let text = match decode(bytes) {
            Some(t) => t,
            None => {
                return Err(NotText);
            },
        };
        let lines = to_lines(&to_chars(text.as_str()));
        let ghost all = crate::text::lines(text@);
        let mut k: usize = 0;
        assert(crate::parser::conversation_views(turns@) == lines_turns(all.take(0)));
        while k < lines.len()
            invariant
                k <= lines.len(),
                all == crate::text::char_views(lines@),
                crate::parser::conversation_views(turns@) == lines_turns(all.take(k as int)),
            decreases lines.len() - k,
        {
            proof {
                assert(all.take(k + 1).drop_last() == all.take(k as int));
                assert(all.take(k + 1).last() == lines@[k as int]@);
            }
            let line = from_chars(&lines[k]);
            if let Some(t) = parse_jsonl_line(line.as_str()) {
                assert(crate::parser::conversation_views(turns@.push(t))
                    == crate::parser::conversation_views(turns@).push(t@));
                turns.push(t);
            }
            k = k + 1;
        }
        assert(all.take(k as int) == all);
        Ok((turns, file.len() as i64))
    }

    /// Stages what is new in a file as of a given time, and moves its watermark.
    pub fn ingest_at(&self, storage: &mut Storage, file_path: &str, file: &Vec<u8>, now: i64) -> (r:
        Result<usize, IngestError>)
        requires
            old(storage).wf(),
        ensures
            final(storage).wf(),
            (final(storage)@, r) == ingestion_of(old(storage)@, file_path@, file@, now),
    {
        let (turns, offset) = match self.read_new_turns(file_path, storage, file) {
            Ok(news) => news,
            Err(_) => {
                return Err(IngestError::NotText);
            },
        };
        let ghost views = crate::parser::conversation_views(turns@);
        assert(views.len() == turns.len());
        if turns.len() == 0 {
            return Ok(0);
        }
        let mut pairs: Vec<(String, String)> = Vec::new();
        let mut i: usize = 0;
        while i < turns.len()
            invariant
                i <= turns.len(),
                views == crate::parser::conversation_views(turns@),
                crate::storage::pair_views(pairs@) == turn_pairs(views).take(i as int),
            decreases turns.len() - i,
        {
            let pair: (String, String) = (turns[i].role.clone(), turns[i].text.clone());
            proof {
                assert(views[i as int] == turns@[i as int]@);
                assert(crate::storage::pair_views(pairs@.push(pair)) == crate::storage::pair_views(
                    pairs@,
                ).push((pair.0@, pair.1@)));
                assert(turn_pairs(views).take(i + 1) == turn_pairs(views).take(i as int).push(
                    turn_pairs(views)[i as int],
                ));
            }
            pairs.push(pair);
            i = i + 1;
        }
        assert(turn_pairs(views).take(i as int) == turn_pairs(views));
        match storage.stage_turns_at(file_path, &pairs, now) {
            Ok(count) => {
                storage.set_watermark_at(file_path, offset, now);
                Ok(count)
            },
            Err(e) => Err(IngestError::Refused(e)),
        }
    }

    /// Stages what is new in a file, and moves its watermark.
    pub fn ingest(&self, storage: &mut Storage, file_path: &str, file: &Vec<u8>) -> (r: Result<
        usize,
        IngestError,
    >)
        requires
            old(storage).wf(),
        ensures
            final(storage).wf(),
            exists|now: i64|
                now >= 0 && (final(storage)@, r) == #[trigger] ingestion_of(
                    old(storage)@,
                    file_path@,
                    file@,
                    now,
                ),
    {
        let now: i64 = now_unix();
        self.ingest_at(storage, file_path, file, now)
    }
}

// ---- laws of reading on ----

/// Every line that holds a turn gives it, behind those before it, and other lines give
/// none; lists of lines give what the one and the other give.
pub proof fn law_turns_line_by_line(
    a: Seq<Seq<char>>,
    b: Seq<Seq<char>>,
    line: Seq<char>,
    t: ConversationTurnView,
)
    ensures
        lines_turns(Seq::empty()).len() == 0,
        crate::parser::line_turn(line) == Some(t) ==> lines_turns(a.push(line)) == lines_turns(
            a,
        ).push(t),
        crate::parser::line_turn(line) is None ==> lines_turns(a.push(line)) == lines_turns(a),
        lines_turns(a + b) == lines_turns(a) + lines_turns(b),
    decreases b.len(),
{
    assert(a.push(line).drop_last() == a);
    if b.len() == 0 {
        assert(a + b == a);
        assert(lines_turns(a) + lines_turns(b) == lines_turns(a));
    } else {
        law_turns_line_by_line(a, b.drop_last(), line, t);
        assert((a + b).drop_last() == a + b.drop_last());
        assert((a + b).last() == b.last());
        if let Some(x) = crate::parser::line_turn(b.last()) {
            assert(lines_turns(a) + lines_turns(b.drop_last()).push(x) == (lines_turns(a)
                + lines_turns(b.drop_last())).push(x));
        }
    }
}

/// Reading goes on where it ended: of a file that has grown, the turns of what was added
/// are new, and of a file that was never read, all of them are. The next reading goes on
/// at its end.
pub proof fn law_what_was_added_is_read(
    g: StorageView,
    path: Seq<char>,
    known: Seq<u8>,
    added: Seq<u8>,
    at: i64,
)
    requires
        added.len() > 0,
        known.len() + added.len() <= i64::MAX,
        vstd::utf8::valid_utf8(added),
    ensures
        ({
            let read = StorageView {
                watermarks: g.watermarks.insert(path, (known.len() as i64, at)),
                ..g
            };
            new_turns(read, path, known + added) == Ok::<(Seq<ConversationTurnView>, i64), NotText>(
                (
                    lines_turns(crate::text::lines(vstd::utf8::decode_utf8(added))),
                    (known.len() + added.len()) as i64,
                ),
            )
        }),
        !g.watermarks.dom().contains(path) ==> new_turns(g, path, added) == Ok::<
            (Seq<ConversationTurnView>, i64),
            NotText,
        >(
            (
                lines_turns(crate::text::lines(vstd::utf8::decode_utf8(added))),
                added.len() as i64,
            ),
        ),
{
    assert((known + added).skip(known.len() as int) == added);
    assert(known.len() == 0 ==> known + added == added);
}

/// New turns are staged and the watermark moves to the end of the file: each turn waits
/// behind those that waited before, with its role and text and under the path of its
/// file, and as many are told. Without new turns nothing changes.
pub proof fn law_new_turns_are_staged(
    g: StorageView,
    path: Seq<char>,
    file: Seq<u8>,
    now: i64,
    news: Seq<ConversationTurnView>,
    end: i64,
)
    requires
        new_turns(g, path, file) == Ok::<(Seq<ConversationTurnView>, i64), NotText>((news, end)),
        g.next_turn + news.len() <= i64::MAX,
        news.len() <= usize::MAX,
    ensures
        ({
            let (after, told) = ingestion_of(g, path, file, now);
            &&& told == Ok::<usize, IngestError>(news.len() as usize)
            &&& news.len() == 0 ==> after == g
            &&& news.len() > 0 ==> {
                &&& after.turns.len() == g.turns.len() + news.len()
                &&& after.turns.take(g.turns.len() as int) == g.turns
                &&& forall|i: int|
                    0 <= i < news.len() ==> {
                        let t = after.turns[g.turns.len() + i];
                        &&& t.role == (#[trigger] news[i]).role && t.text == news[i].text
                        &&& t.file_path == path && t.staged_at == now && t.id == g.next_turn + i
                    }
                &&& after.watermarks == g.watermarks.insert(path, (file.len() as i64, now))
                &&& after.next_turn == g.next_turn + news.len()
            }
        }),
{
    crate::storage::law_staged_turns_wait(g.turns, path, turn_pairs(news), g.next_turn, now);
    let all = crate::storage::staged(g.turns, path, turn_pairs(news), g.next_turn, now);
    assert forall|i: int| 0 <= i < news.len() implies {
        let t = all[g.turns.len() + i];
        &&& t.role == (#[trigger] news[i]).role && t.text == news[i].text
        &&& t.file_path == path && t.staged_at == now && t.id == g.next_turn + i
    } by {
        assert(turn_pairs(news)[i] == (news[i].role, news[i].text));
        let _ = all[g.turns.len() + i];
    }
}

} // verus!
