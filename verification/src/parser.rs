//! Reading conversation logs, one JSON object per line.

use vstd::prelude::*;

use crate::json::{json_items, json_member, json_text};
use crate::text::{is_blank, join, same, trim, truncate};

verus! {

/// A conversation turn: who spoke, and what was said.
#[derive(Debug)]
pub struct ConversationTurn {
    pub role: String,
    pub text: String,
}

/// What a turn holds.
#[verifier::ext_equal]
pub struct ConversationTurnView {
    pub role: Seq<char>,
    pub text: Seq<char>,
}

impl View for ConversationTurn {
    type V = ConversationTurnView;

    open spec fn view(&self) -> ConversationTurnView {
        ConversationTurnView { role: self.role@, text: self.text@ }
    }
}

/// What the turns of a list hold.
pub open spec fn conversation_views(v: Seq<ConversationTurn>) -> Seq<ConversationTurnView> {
    Seq::new(v.len(), |i: int| v[i]@)
}

/// What a log says of its session.
#[derive(Debug)]
pub struct SessionMetadata {
    /// Working directory: the path of the project.
    pub cwd: Option<String>,
    /// Git branch during the conversation.
    pub git_branch: Option<String>,
}

/// What session metadata holds.
#[verifier::ext_equal]
pub struct SessionMetadataView {
    pub cwd: Option<Seq<char>>,
    pub git_branch: Option<Seq<char>>,
}

impl View for SessionMetadata {
    type V = SessionMetadataView;

    open spec fn view(&self) -> SessionMetadataView {
        SessionMetadataView {
            cwd: crate::fragment::text_view(self.cwd),
            git_branch: crate::fragment::text_view(self.git_branch),
        }
    }
}

/// Nothing is known of a session.
pub open spec fn no_metadata() -> SessionMetadataView {
    SessionMetadataView { cwd: None, git_branch: None }
}

impl Default for SessionMetadata {
    fn default() -> (r: Self)
        ensures
            r@ == no_metadata(),
    {
        SessionMetadata { cwd: None, git_branch: None }
    }
}

// ---- members of a line ----

/// The string member of a JSON object under a key.
pub open spec fn string_member(text: Seq<char>, key: Seq<char>) -> Option<Seq<char>> {
    match crate::json::json_member_of(text, key) {
        Some(m) => crate::json::json_text_of(m),
        None => None,
    }
}

/// Reads the string member of a JSON object under a key.
pub fn read_string_member(text: &str, key: &str) -> (r: Option<String>)
    ensures
        crate::fragment::text_view(r) == string_member(text@, key@),
{
    match json_member(text, key) {
        Some(m) => json_text(m.as_str()),
        None => None,
    }
}

/// Metadata that holds something.
pub open spec fn known_metadata(cwd: Option<Seq<char>>, git_branch: Option<Seq<char>>) -> Option<
    SessionMetadataView,
> {
    if cwd is Some || git_branch is Some {
        Some(SessionMetadataView { cwd, git_branch })
    } else {
        None
    }
}

/// The metadata of a line, if it holds any.
pub open spec fn line_metadata(line: Seq<char>) -> Option<SessionMetadataView> {
    let t = crate::text::trimmed(line);
    if t.len() == 0 {
        None
    } else {
        known_metadata(string_member(t, "cwd"@), string_member(t, "gitBranch"@))
    }
}

/// The metadata that a working directory and a branch make.
pub fn make_metadata(cwd: Option<String>, git_branch: Option<String>) -> (r: Option<
    SessionMetadata,
>)
    ensures
        match r {
            Some(m) => known_metadata(
                crate::fragment::text_view(cwd),
                crate::fragment::text_view(git_branch),
            ) == Some(m@),
            None => known_metadata(
                crate::fragment::text_view(cwd),
                crate::fragment::text_view(git_branch),
            ) is None,
        },
{
    if cwd.is_some() || git_branch.is_some() {
        Some(SessionMetadata { cwd, git_branch })
    } else {
        None
    }
}

/// Reads the working directory and the branch from a line of a log.
pub fn parse_session_metadata(line: &str) -> (r: Option<SessionMetadata>)
    ensures
        match r {
            Some(m) => line_metadata(line@) == Some(m@),
            None => line_metadata(line@) is None,
        },
{
    let t = trim(line);
    if t.as_str().is_empty() {
        return None;
    }
    make_metadata(
        read_string_member(t.as_str(), "cwd"),
        read_string_member(t.as_str(), "gitBranch"),
    )
}

/// The number of lines in which metadata is looked for.
pub const METADATA_LINES: usize = 5;

/// The metadata of the first line that holds any, from line `from` on and among
/// the first few lines.
pub open spec fn first_metadata(lines: Seq<Seq<char>>, from: int) -> SessionMetadataView
    decreases METADATA_LINES - from,
{
    if from >= METADATA_LINES || from >= lines.len() {
        no_metadata()
    } else {
        match line_metadata(lines[from]) {
            Some(m) => m,
            None => first_metadata(lines, from + 1),
        }
    }
}

/// Looks for session metadata in the first lines of a log.
pub fn find_session_metadata(lines: &Vec<String>) -> (r: SessionMetadata)
    ensures
        r@ == first_metadata(crate::text::views(lines@), 0),
{
    let mut i: usize = 0;
    while i < lines.len() && i < METADATA_LINES
        invariant
            i <= lines.len(),
            i <= METADATA_LINES,
            first_metadata(crate::text::views(lines@), 0) == first_metadata(
                crate::text::views(lines@),
                i as int,
            ),
        decreases lines.len() - i,
    {
        if let Some(m) = parse_session_metadata(lines[i].as_str()) {
            return m;
        }
        i = i + 1;
    }
    SessionMetadata::default()
}

// ---- content of a message ----

/// One block of a message, as far as it is of interest.
#[derive(Debug)]
pub struct Block {
    /// The type of the block; empty where it has none.
    pub kind: String,
    pub text: Option<String>,
    pub thinking: Option<String>,
    /// The text of what a tool gave back.
    pub content: Option<String>,
}

/// What a block holds.
#[verifier::ext_equal]
pub struct BlockView {
    pub kind: Seq<char>,
    pub text: Option<Seq<char>>,
    pub thinking: Option<Seq<char>>,
    pub content: Option<Seq<char>>,
}

impl View for Block {
    type V = BlockView;

    open spec fn view(&self) -> BlockView {
        BlockView {
            kind: self.kind@,
            text: crate::fragment::text_view(self.text),
            thinking: crate::fragment::text_view(self.thinking),
            content: crate::fragment::text_view(self.content),
        }
    }
}

/// What the blocks of a list hold.
pub open spec fn block_views(v: Seq<Block>) -> Seq<BlockView> {
    Seq::new(v.len(), |i: int| v[i]@)
}

/// The content of a message.
#[derive(Debug)]
pub enum Content {
    Text(String),
    Blocks(Vec<Block>),
    Other,
}

/// What a content holds.
pub enum ContentView {
    Text(Seq<char>),
    Blocks(Seq<BlockView>),
    Other,
}

impl View for Content {
    type V = ContentView;

    open spec fn view(&self) -> ContentView {
        match *self {
            Content::Text(s) => ContentView::Text(s@),
            Content::Blocks(b) => ContentView::Blocks(block_views(b@)),
            Content::Other => ContentView::Other,
        }
    }
}

/// The text of a block: a text as it is, reasoning of more than 50 bytes cut off
/// at 500, and what a tool gave back, unless it is blank; nothing of tool calls,
/// images and the like.
pub open spec fn block_text(b: BlockView) -> Option<Seq<char>> {
    if b.kind == "text"@ {
        b.text
    } else if b.kind == "thinking"@ {
        match b.thinking {
            Some(t) => if crate::text::byte_len(t) > 50 {
                Some("[Reasoning: "@ + crate::text::fitting(t, 500) + "]"@)
            } else {
                None
            },
            None => None,
        }
    } else if b.kind == "tool_result"@ {
        match b.content {
            Some(c) => if crate::text::trimmed(c).len() > 0 {
                Some(c)
            } else {
                None
            },
            None => None,
        }
    } else {
        None
    }
}

/// The texts of the blocks that have one.
pub open spec fn block_texts(blocks: Seq<BlockView>) -> Seq<Seq<char>>
    decreases blocks.len(),
{
    if blocks.len() == 0 {
        Seq::empty()
    } else {
        match block_text(blocks.last()) {
            Some(t) => block_texts(blocks.drop_last()).push(t),
            None => block_texts(blocks.drop_last()),
        }
    }
}

/// The text of a content: the texts of its blocks with an empty line between
/// each two.
pub open spec fn content_text(c: ContentView) -> Seq<char> {
    match c {
        ContentView::Text(s) => s,
        ContentView::Blocks(b) => crate::text::joined(block_texts(b), "\n\n"@),
        ContentView::Other => Seq::empty(),
    }
}

/// Takes the text out of a block.
pub fn extract_block_text(b: &Block) -> (r: Option<String>)
    ensures
        crate::fragment::text_view(r) == block_text(b@),
{
    proof {
        reveal_strlit("text");
        reveal_strlit("thinking");
    }
    if same(b.kind.as_str(), "text") {
        match &b.text {
            Some(t) => Some(t.clone()),
            None => None,
        }
    } else if same(b.kind.as_str(), "thinking") {
        match &b.thinking {
            Some(t) => {
                if crate::text::count_bytes(&crate::text::to_chars(t.as_str())) > 50 {
                    let mut s: String = "[Reasoning: ".to_owned();
                    s.append(truncate(t.as_str(), 500).as_str());
                    s.append("]");
                    Some(s)
                } else {
                    None
                }
            },
            None => None,
        }
    } else if same(b.kind.as_str(), "tool_result") {
        match &b.content {
            Some(c) => if is_blank(c.as_str()) {
                None
            } else {
                Some(c.clone())
            },
            None => None,
        }
    } else {
        None
    }
}

/// Takes the text out of the content of a message.
pub fn extract_text_content(content: &Content) -> (r: String)
    ensures
        r@ == content_text(content@),
{
    match content {
        Content::Text(s) => s.clone(),
        Content::Blocks(blocks) => {
            let ghost all = block_views(blocks@);
            let mut texts: Vec<String> = Vec::new();
            let mut i: usize = 0;
            assert(crate::text::views(texts@) == block_texts(all.take(0)));
            while i < blocks.len()
                invariant
                    i <= blocks.len(),
                    all == block_views(blocks@),
                    crate::text::views(texts@) == block_texts(all.take(i as int)),
                decreases blocks.len() - i,
            {
                proof {
                    assert(all.take(i + 1).drop_last() == all.take(i as int));
                    assert(all.take(i + 1).last() == blocks@[i as int]@);
                }
                if let Some(t) = extract_block_text(&blocks[i]) {
                    assert(crate::text::views(texts@.push(t)) == crate::text::views(texts@).push(
                        t@,
                    ));
                    texts.push(t);
                }
                i = i + 1;
            }
            assert(all.take(i as int) == all);
            join(&texts, "\n\n")
        },
        Content::Other => String::new(),
    }
}

/// A message of a log: who spoke, and the content.
#[derive(Debug)]
pub struct Message {
    pub role: String,
    pub content: Content,
}

/// The turn of a message; nothing where its text is blank.
pub open spec fn message_turn(role: Seq<char>, content: ContentView) -> Option<
    ConversationTurnView,
> {
    let text = content_text(content);
    if crate::text::trimmed(text).len() == 0 {
        None
    } else {
        Some(ConversationTurnView { role, text })
    }
}

/// The turn of a message.
pub fn turn_of(message: &Message) -> (r: Option<ConversationTurn>)
    ensures
        match r {
            Some(t) => message_turn(message.role@, message.content@) == Some(t@),
            None => message_turn(message.role@, message.content@) is None,
        },
{
    let text = extract_text_content(&message.content);
    if is_blank(text.as_str()) {
        return None;
    }
    Some(ConversationTurn { role: message.role.clone(), text })
}

// ---- lines of a log ----

/// The texts of the text blocks of what a tool gave back.
pub open spec fn json_texts(items: Seq<Seq<char>>) -> Seq<Seq<char>>
    decreases items.len(),
{
    if items.len() == 0 {
        Seq::empty()
    } else {
        let rest = json_texts(items.drop_last());
        match (string_member(items.last(), "type"@), string_member(items.last(), "text"@)) {
            (Some(kind), Some(text)) => if kind == "text"@ {
                rest.push(text)
            } else {
                rest
            },
            _ => rest,
        }
    }
}

/// The text of what a tool gave back: a string as it is, or the texts of a list
/// of blocks with an empty line between each two.
pub open spec fn json_result(item: Seq<char>) -> Option<Seq<char>> {
    match crate::json::json_member_of(item, "content"@) {
        Some(c) => match crate::json::json_text_of(c) {
            Some(s) => Some(s),
            None => match crate::json::json_items_of(c) {
                Some(items) => Some(crate::text::joined(json_texts(items), "\n\n"@)),
                None => None,
            },
        },
        None => None,
    }
}

/// Reads the text of what a tool gave back.
pub fn read_result(item: &str) -> (r: Option<String>)
    ensures
        crate::fragment::text_view(r) == json_result(item@),
{
    let content = match json_member(item, "content") {
        Some(c) => c,
        None => {
            return None;
        },
    };
    if let Some(s) = json_text(content.as_str()) {
        return Some(s);
    }
    match json_items(content.as_str()) {
        Some(items) => {
            let ghost all = crate::text::views(items@);
            let mut texts: Vec<String> = Vec::new();
            let mut i: usize = 0;
            assert(crate::text::views(texts@) == json_texts(all.take(0)));
            while i < items.len()
                invariant
                    i <= items.len(),
                    all == crate::text::views(items@),
                    crate::text::views(texts@) == json_texts(all.take(i as int)),
                decreases items.len() - i,
            {
                let part = items[i].as_str();
                proof {
                    assert(all.take(i + 1).drop_last() == all.take(i as int));
                    assert(all.take(i + 1).last() == part@);
                }
                let kind = read_string_member(part, "type");
                let text = read_string_member(part, "text");
                if let (Some(k), Some(t)) = (kind, text) {
                    if same(k.as_str(), "text") {
                        assert(crate::text::views(texts@.push(t)) == crate::text::views(
                            texts@,
                        ).push(t@));
                        texts.push(t);
                    }
                }
                i = i + 1;
            }
            assert(all.take(i as int) == all);
            Some(join(&texts, "\n\n"))
        },
        None => None,
    }
}

/// The block that a JSON value stands for.
pub open spec fn json_block(item: Seq<char>) -> BlockView {
    BlockView {
        kind: match string_member(item, "type"@) {
            Some(k) => k,
            None => Seq::empty(),
        },
        text: string_member(item, "text"@),
        thinking: string_member(item, "thinking"@),
        content: json_result(item),
    }
}

/// The content that a JSON value stands for.
pub open spec fn json_content(text: Seq<char>) -> ContentView {
    match crate::json::json_text_of(text) {
        Some(s) => ContentView::Text(s),
        None => match crate::json::json_items_of(text) {
            Some(items) => ContentView::Blocks(
                Seq::new(items.len(), |i: int| json_block(items[i])),
            ),
            None => ContentView::Other,
        },
    }
}

/// The turn of a line: of its member `message`, with the members `role` and
/// `content`, if they are there.
pub open spec fn line_turn(line: Seq<char>) -> Option<ConversationTurnView> {
    let t = crate::text::trimmed(line);
    if t.len() == 0 {
        None
    } else {
        match crate::json::json_member_of(t, "message"@) {
            Some(m) => match (
                string_member(m, "role"@),
                crate::json::json_member_of(m, "content"@),
            ) {
                (Some(role), Some(content)) => message_turn(role, json_content(content)),
                _ => None,
            },
            None => None,
        }
    }
}

/// Reads the content that a JSON value stands for.
pub fn read_content(text: &str) -> (r: Content)
    ensures
        r@ == json_content(text@),
{
    if let Some(s) = json_text(text) {
        return Content::Text(s);
    }
    match json_items(text) {
        Some(items) => {
            let ghost all = crate::text::views(items@);
            let mut blocks: Vec<Block> = Vec::new();
            let mut i: usize = 0;
            while i < items.len()
                invariant
                    i <= items.len(),
                    all == crate::text::views(items@),
                    blocks.len() == i,
                    forall|k: int| 0 <= k < i ==> (#[trigger] blocks@[k])@ == json_block(all[k]),
                decreases items.len() - i,
            {
                let item = items[i].as_str();
                assert(all[i as int] == item@);
                let kind = match read_string_member(item, "type") {
                    Some(k) => k,
                    None => String::new(),
                };
                blocks.push(
                    Block {
                        kind,
                        text: read_string_member(item, "text"),
                        thinking: read_string_member(item, "thinking"),
                        content: read_result(item),
                    },
                );
                i = i + 1;
            }
            assert(block_views(blocks@) == Seq::new(all.len(), |k: int| json_block(all[k])));
            Content::Blocks(blocks)
        },
        None => Content::Other,
    }
}

/// Reads a turn from a line of a log. Nothing where the line is to be skipped.
pub fn parse_jsonl_line(line: &str) -> (r: Option<ConversationTurn>)
    ensures
        match r {
            Some(t) => line_turn(line@) == Some(t@),
            None => line_turn(line@) is None,
        },
{
    let t = trim(line);
    if t.as_str().is_empty() {
        return None;
    }
    match json_member(t.as_str(), "message") {
        Some(m) => {
            let role = read_string_member(m.as_str(), "role");
            let content = json_member(m.as_str(), "content");
            match (role, content) {
                (Some(role), Some(content)) => {
                    let message = Message { role, content: read_content(content.as_str()) };
                    turn_of(&message)
                },
                _ => None,
            }
        },
        None => None,
    }
}

// ---- transcripts ----

/// The heading of a turn.
pub open spec fn role_label(role: Seq<char>) -> Seq<char> {
    if role == "user"@ {
        "User"@
    } else if role == "assistant"@ {
        "Assistant"@
    } else {
        "System"@
    }
}

/// A turn with its heading.
pub open spec fn formatted_turn(t: ConversationTurnView) -> Seq<char> {
    "### "@ + role_label(t.role) + "\n"@ + t.text + "\n\n"@
}

/// Some turns, one after the other.
pub open spec fn formatted(turns: Seq<ConversationTurnView>) -> Seq<char>
    decreases turns.len(),
{
    if turns.len() == 0 {
        Seq::empty()
    } else {
        formatted(turns.drop_last()) + formatted_turn(turns.last())
    }
}

/// Writes conversation turns as a transcript.
pub fn format_conversation_batch(turns: &Vec<ConversationTurn>) -> (r: String)
    ensures
        r@ == formatted(conversation_views(turns@)),
{
    let ghost all = conversation_views(turns@);
    let mut output: String = String::new();
    let mut i: usize = 0;
    while i < turns.len()
        invariant
            i <= turns.len(),
            all == conversation_views(turns@),
            output@ == formatted(all.take(i as int)),
        decreases turns.len() - i,
    {
        let turn = &turns[i];
        let label = if same(turn.role.as_str(), "user") {
            "User"
        } else if same(turn.role.as_str(), "assistant") {
            "Assistant"
        } else {
            "System"
        };
        let ghost before = output@;
        output.append("### ");
        output.append(label);
        output.append("\n");
        output.append(turn.text.as_str());
        output.append("\n\n");
        proof {
            assert(all.take(i + 1).drop_last() == all.take(i as int));
            assert(all.take(i + 1).last() == turn@);
            assert(label@ == role_label(turn.role@));
            assert(output@ == before + formatted_turn(turn@));
        }
        i = i + 1;
    }
    assert(all.take(i as int) == all);
    output
}

/// A transcript of more turns begins with that of the first ones.
pub proof fn law_transcript_grows(a: Seq<ConversationTurnView>, b: Seq<ConversationTurnView>)
    ensures
        formatted(a + b) == formatted(a) + formatted(b),
    decreases b.len(),
{
    if b.len() == 0 {
        assert(a + b == a);
        assert(formatted(a) + formatted(b) == formatted(a));
    } else {
        law_transcript_grows(a, b.drop_last());
        assert((a + b).drop_last() == a + b.drop_last());
        assert((a + b).last() == b.last());
        assert(formatted(a) + (formatted(b.drop_last()) + formatted_turn(b.last())) == formatted(a)
            + formatted(b.drop_last()) + formatted_turn(b.last()));
    }
}

/// A turn stands in a transcript with all of its text, below a heading that tells who
/// spoke.
pub proof fn law_turn_in_transcript(t: ConversationTurnView)
    ensures
        t.role == "user"@ ==> formatted(seq![t]) == "### User\n"@ + t.text + "\n\n"@,
        t.role == "assistant"@ ==> formatted(seq![t]) == "### Assistant\n"@ + t.text + "\n\n"@,
        t.role != "user"@ && t.role != "assistant"@ ==> formatted(seq![t]) == "### System\n"@
            + t.text + "\n\n"@,
{
    reveal_strlit("### ");
    reveal_strlit("\n");
    reveal_strlit("user");
    reveal_strlit("assistant");
    reveal_strlit("User");
    reveal_strlit("Assistant");
    reveal_strlit("System");
    reveal_strlit("### User\n");
    reveal_strlit("### Assistant\n");
    reveal_strlit("### System\n");
    assert("user"@.len() != "assistant"@.len());
    assert(seq![t].drop_last() == Seq::<ConversationTurnView>::empty());
    assert(formatted(seq![t].drop_last()) == Seq::<char>::empty());
    assert(formatted(seq![t]) == formatted_turn(t));
    assert("### "@ + "User"@ + "\n"@ == "### User\n"@);
    assert("### "@ + "Assistant"@ + "\n"@ == "### Assistant\n"@);
    assert("### "@ + "System"@ + "\n"@ == "### System\n"@);
}

// ---- what a message says is kept ----

/// A text behind what a content says so far.
pub open spec fn said_behind(before: Seq<char>, t: Seq<char>, after: Seq<char>) -> bool {
    &&& before.len() > 0 ==> after == before + "\n\n"@ + t
    &&& before.len() == 0 ==> after == t || after == "\n\n"@ + t
}

proof fn lemma_block_appended(blocks: Seq<BlockView>, b: BlockView)
    ensures
        match block_text(b) {
            Some(t) => said_behind(
                content_text(ContentView::Blocks(blocks)),
                t,
                content_text(ContentView::Blocks(blocks.push(b))),
            ) && (blocks.len() == 0 ==> content_text(ContentView::Blocks(blocks.push(b))) == t),
            None => content_text(ContentView::Blocks(blocks.push(b))) == content_text(
                ContentView::Blocks(blocks),
            ),
        },
{
    let texts = block_texts(blocks);
    assert(blocks.push(b).drop_last() == blocks);
    if let Some(t) = block_text(b) {
        let all = texts.push(t);
        assert(block_texts(blocks.push(b)) == all);
        crate::text::law_joined(texts, seq![t], t, "\n\n"@);
        assert(texts + seq![t] == all);
        if texts.len() == 0 {
            assert(all == seq![t]);
        }
        assert(Seq::<char>::empty() + "\n\n"@ + t == "\n\n"@ + t);
        if crate::text::joined(texts, "\n\n"@).len() == 0 {
            assert(crate::text::joined(texts, "\n\n"@) == Seq::<char>::empty());
        }
    }
}

/// A text block says its text, behind an empty line if something was said before.
pub proof fn law_text_block_is_kept(blocks: Seq<BlockView>, b: BlockView, t: Seq<char>)
    requires
        b.kind == "text"@,
        b.text == Some(t),
    ensures
        said_behind(
            content_text(ContentView::Blocks(blocks)),
            t,
            content_text(ContentView::Blocks(blocks.push(b))),
        ),
        content_text(ContentView::Blocks(seq![b])) == t,
{
    lemma_block_appended(blocks, b);
    lemma_block_appended(Seq::empty(), b);
    assert(Seq::<BlockView>::empty().push(b) == seq![b]);
}

/// What a tool gave back is said as it is, unless nothing but white space is in it.
pub proof fn law_tool_result_is_kept(blocks: Seq<BlockView>, b: BlockView, c: Seq<char>)
    requires
        b.kind == "tool_result"@,
        b.content == Some(c),
    ensures
        ({
            let before = content_text(ContentView::Blocks(blocks));
            let after = content_text(ContentView::Blocks(blocks.push(b)));
            if forall|i: int| 0 <= i < c.len() ==> crate::text::is_space(#[trigger] c[i]) {
                after == before
            } else {
                said_behind(before, c, after)
            }
        }),
{
    reveal_strlit("text");
    reveal_strlit("thinking");
    reveal_strlit("tool_result");
    assert("tool_result"@.len() == 11);
    crate::text::law_trimmed(c);
    lemma_block_appended(blocks, b);
}

/// Reasoning is said where it has more than 50 bytes, and of it what fits into 500.
pub proof fn law_reasoning_is_kept(blocks: Seq<BlockView>, b: BlockView, t: Seq<char>)
    requires
        b.kind == "thinking"@,
        b.thinking == Some(t),
    ensures
        ({
            let before = content_text(ContentView::Blocks(blocks));
            let after = content_text(ContentView::Blocks(blocks.push(b)));
            if crate::text::byte_len(t) <= 50 {
                after == before
            } else {
                said_behind(
                    before,
                    "[Reasoning: "@ + crate::text::fitting(t, 500) + "]"@,
                    after,
                )
            }
        }),
{
    reveal_strlit("text");
    reveal_strlit("thinking");
    assert("thinking"@.len() == 8);
    lemma_block_appended(blocks, b);
}

/// Tool calls, images and the like say nothing, and a plain text says itself.
pub proof fn law_other_blocks_say_nothing(blocks: Seq<BlockView>, b: BlockView, s: Seq<char>)
    requires
        b.kind != "text"@,
        b.kind != "thinking"@,
        b.kind != "tool_result"@,
    ensures
        content_text(ContentView::Blocks(blocks.push(b))) == content_text(
            ContentView::Blocks(blocks),
        ),
        content_text(ContentView::Blocks(Seq::empty())) == Seq::<char>::empty(),
        content_text(ContentView::Text(s)) == s,
        content_text(ContentView::Other) == Seq::<char>::empty(),
{
    lemma_block_appended(blocks, b);
}

proof fn lemma_said_stays(blocks: Seq<BlockView>, n: int, k: int, t: Seq<char>)
    requires
        0 <= n <= blocks.len(),
        crate::text::occurs_at(content_text(ContentView::Blocks(blocks.take(n))), t, k),
    ensures
        content_text(ContentView::Blocks(blocks.take(n))).len() == 0 || crate::text::occurs_at(
            content_text(ContentView::Blocks(blocks)),
            t,
            k,
        ),
        content_text(ContentView::Blocks(blocks.take(n))).len() <= content_text(
            ContentView::Blocks(blocks),
        ).len(),
    decreases blocks.len() - n,
{
    if n == blocks.len() {
        assert(blocks.take(n) == blocks);
    } else {
        let before = content_text(ContentView::Blocks(blocks.take(n)));
        let after = content_text(ContentView::Blocks(blocks.take(n + 1)));
        assert(blocks.take(n + 1) == blocks.take(n).push(blocks[n]));
        lemma_block_appended(blocks.take(n), blocks[n]);
        if before.len() > 0 {
            assert(after.subrange(k, k + t.len()) == before.subrange(k, k + t.len()));
            lemma_said_stays(blocks, n + 1, k, t);
        } else {
            assert(after.subrange(0, 0) == Seq::<char>::empty());
            assert(crate::text::occurs_at(after, Seq::empty(), 0));
            lemma_said_stays(blocks, n + 1, 0, Seq::empty());
        }
    }
}

/// Nothing of a message is lost: the text of each of its text blocks stands in what it
/// says, in the order of the blocks.
pub proof fn law_every_text_is_said(blocks: Seq<BlockView>, i: int, j: int)
    requires
        0 <= i < j < blocks.len(),
        blocks[i].kind == "text"@ && blocks[i].text is Some && blocks[i].text->0.len() > 0,
        blocks[j].kind == "text"@ && blocks[j].text is Some && blocks[j].text->0.len() > 0,
    ensures
        exists|p: int, q: int|
            {
                &&& #[trigger] crate::text::occurs_at(
                    content_text(ContentView::Blocks(blocks)),
                    blocks[i].text->0,
                    p,
                )
                &&& #[trigger] crate::text::occurs_at(
                    content_text(ContentView::Blocks(blocks)),
                    blocks[j].text->0,
                    q,
                )
                &&& p + blocks[i].text->0.len() + 2 <= q
            },
{
    let (t, u) = (blocks[i].text->0, blocks[j].text->0);
    reveal_strlit("\n\n");
    let first = content_text(ContentView::Blocks(blocks.take(i + 1)));
    assert(blocks.take(i + 1) == blocks.take(i).push(blocks[i]));
    lemma_block_appended(blocks.take(i), blocks[i]);
    let p = first.len() - t.len();
    assert(first.subrange(p, p + t.len()) == t);
    assert(crate::text::occurs_at(first, t, p));
    let front = blocks.take(j);
    assert(front.take(i + 1) == blocks.take(i + 1));
    lemma_said_stays(front, i + 1, p, t);
    let middle = content_text(ContentView::Blocks(front));
    let second = content_text(ContentView::Blocks(blocks.take(j + 1)));
    assert(blocks.take(j + 1) == front.push(blocks[j]));
    lemma_block_appended(front, blocks[j]);
    let q = second.len() - u.len();
    assert(second == middle + "\n\n"@ + u);
    assert(second.subrange(q, q + u.len()) == u);
    assert(crate::text::occurs_at(second, u, q));
    assert(second.subrange(p, p + t.len()) == middle.subrange(p, p + t.len()));
    assert(crate::text::occurs_at(second, t, p));
    lemma_said_stays(blocks, j + 1, q, u);
    lemma_said_stays(blocks, j + 1, p, t);
}

/// A message makes a turn of its speaker and its text, unless nothing but white space
/// is in it.
pub proof fn law_message_makes_a_turn(role: Seq<char>, content: ContentView)
    ensures
        ({
            let said = content_text(content);
            message_turn(role, content) == if forall|i: int|
                0 <= i < said.len() ==> crate::text::is_space(#[trigger] said[i]) {
                None
            } else {
                Some(ConversationTurnView { role, text: said })
            }
        }),
{
    crate::text::law_trimmed(content_text(content));
}

/// A line whose message has a role and a content makes the turn of that message. The
/// content is a string, or an array of blocks, each with its type and its text.
pub proof fn law_line_makes_the_turn_of_its_message(
    line: Seq<char>,
    message: Seq<char>,
    role_json: Seq<char>,
    role: Seq<char>,
    content: Seq<char>,
)
    requires
        crate::json::json_member_of(crate::text::trimmed(line), "message"@) == Some(message),
        exists|i: int| 0 <= i < line.len() && !crate::text::is_space(#[trigger] line[i]),
        crate::json::json_member_of(message, "role"@) == Some(role_json),
        crate::json::json_text_of(role_json) == Some(role),
        crate::json::json_member_of(message, "content"@) == Some(content),
    ensures
        crate::json::json_text_of(content) matches Some(s) ==> line_turn(line) == message_turn(
            role,
            ContentView::Text(s),
        ),
        crate::json::json_text_of(content) is None ==> (crate::json::json_items_of(
            content,
        ) matches Some(items) ==> exists|blocks: Seq<BlockView>|
            {
                &&& line_turn(line) == #[trigger] message_turn(role, ContentView::Blocks(blocks))
                &&& blocks.len() == items.len()
                &&& forall|i: int|
                    0 <= i < items.len() ==> has_members(items[i], #[trigger] blocks[i])
            }),
{
    crate::text::law_trimmed(line);
    if let Some(items) = crate::json::json_items_of(content) {
        let blocks = Seq::new(items.len(), |i: int| json_block(items[i]));
        assert forall|i: int| 0 <= i < items.len() implies has_members(
            items[i],
            #[trigger] blocks[i],
        ) by {
            assert(blocks[i] == json_block(items[i]));
        }
        assert(crate::json::json_text_of(content) is None ==> line_turn(line) == message_turn(
            role,
            ContentView::Blocks(blocks),
        ));
    }
}

/// A block has the type, the text and the reasoning that the members of a JSON object
/// name, where they are strings.
pub open spec fn has_members(item: Seq<char>, b: BlockView) -> bool {
    &&& crate::json::json_member_of(item, "type"@) matches Some(m)
        ==> (crate::json::json_text_of(m) matches Some(t) ==> b.kind == t)
    &&& b.text == match crate::json::json_member_of(item, "text"@) {
        Some(m) => crate::json::json_text_of(m),
        None => None,
    }
    &&& b.thinking == match crate::json::json_member_of(item, "thinking"@) {
        Some(m) => crate::json::json_text_of(m),
        None => None,
    }
    &&& crate::json::json_member_of(item, "content"@) matches Some(m)
        ==> (crate::json::json_text_of(m) matches Some(t) ==> b.content == Some(t))
}

/// A text item of what a tool gave back says its text, behind those before it.
pub proof fn law_result_texts_are_kept(
    items: Seq<Seq<char>>,
    item: Seq<char>,
    kind: Seq<char>,
    text: Seq<char>,
)
    requires
        string_member(item, "type"@) == Some(kind),
        string_member(item, "text"@) == Some(text),
    ensures
        json_texts(items.push(item)) == if kind == "text"@ {
            json_texts(items).push(text)
        } else {
            json_texts(items)
        },
        json_texts(Seq::empty()) == Seq::<Seq<char>>::empty(),
{
    assert(items.push(item).drop_last() == items);
}

/// Metadata is that of the first line that holds a working directory or a branch, among
/// the first five.
pub proof fn law_first_metadata(lines: Seq<Seq<char>>, k: int)
    requires
        0 <= k < lines.len(),
        k < 5,
        line_metadata(lines[k]) is Some,
        forall|i: int| 0 <= i < k ==> line_metadata(#[trigger] lines[i]) is None,
    ensures
        Some(first_metadata(lines, 0)) == line_metadata(lines[k]),
        ({
            let t = crate::text::trimmed(lines[k]);
            let m = first_metadata(lines, 0);
            &&& m.cwd == string_member(t, "cwd"@)
            &&& m.git_branch == string_member(t, "gitBranch"@)
            &&& m.cwd is Some || m.git_branch is Some
        }),
{
    lemma_metadata_from(lines, 0, k);
}

proof fn lemma_metadata_from(lines: Seq<Seq<char>>, from: int, k: int)
    requires
        0 <= from <= k < lines.len(),
        k < 5,
        line_metadata(lines[k]) is Some,
        forall|i: int| from <= i < k ==> line_metadata(#[trigger] lines[i]) is None,
    ensures
        Some(first_metadata(lines, from)) == line_metadata(lines[k]),
    decreases k - from,
{
    if from < k {
        lemma_metadata_from(lines, from + 1, k);
    }
}

/// Where none of the first five lines holds any, there is no metadata.
pub proof fn law_no_metadata(lines: Seq<Seq<char>>)
    requires
        forall|i: int| 0 <= i < lines.len() && i < 5 ==> line_metadata(#[trigger] lines[i]) is None,
    ensures
        first_metadata(lines, 0).cwd is None,
        first_metadata(lines, 0).git_branch is None,
{
    reveal_with_fuel(first_metadata, 6);
}

/// What a tool gave back is a string as it is, or what the text items of an array say,
/// with an empty line between each two; anything else is nothing.
pub proof fn law_results(item: Seq<char>, content: Seq<char>, s: Seq<char>, items: Seq<Seq<char>>)
    ensures
        crate::json::json_member_of(item, "content"@) is None ==> json_block(item).content is None,
        crate::json::json_member_of(item, "content"@) == Some(content) ==> {
            &&& crate::json::json_text_of(content) == Some(s) ==> json_block(item).content == Some(s)
            &&& crate::json::json_text_of(content) is None && crate::json::json_items_of(content)
                == Some(items) ==> json_block(item).content == Some(
                crate::text::joined(json_texts(items), "\n\n"@),
            )
            &&& crate::json::json_text_of(content) is None && crate::json::json_items_of(content)
                is None ==> json_block(item).content is None
        },
        crate::json::json_member_of(item, "type"@) is None ==> json_block(item).kind.len() == 0,
{
}

/// An item of a result that is no text item, or names no text, says nothing.
pub proof fn law_other_items_say_nothing(items: Seq<Seq<char>>, item: Seq<char>)
    requires
        string_member(item, "type"@) != Some("text"@) || string_member(item, "text"@) is None,
    ensures
        json_texts(items.push(item)) == json_texts(items),
{
    assert(items.push(item).drop_last() == items);
}

/// A block that lacks what its kind is to hold says nothing.
pub proof fn law_empty_blocks_say_nothing(blocks: Seq<BlockView>, b: BlockView)
    requires
        (b.kind == "text"@ && b.text is None) || (b.kind == "thinking"@ && b.thinking is None) || (
        b.kind == "tool_result"@ && b.content is None),
    ensures
        content_text(ContentView::Blocks(blocks.push(b))) == content_text(
            ContentView::Blocks(blocks),
        ),
{
    reveal_strlit("text");
    reveal_strlit("thinking");
    reveal_strlit("tool_result");
    assert("text"@.len() == 4 && "thinking"@.len() == 8 && "tool_result"@.len() == 11);
    lemma_block_appended(blocks, b);
}

/// A line without a message, a message without a role or a content, and a content that is
/// neither a string nor an array make no turn.
pub proof fn law_lines_without_a_turn(line: Seq<char>, message: Seq<char>, content: Seq<char>)
    ensures
        crate::text::trimmed(line).len() == 0 ==> line_turn(line) is None,
        crate::json::json_member_of(crate::text::trimmed(line), "message"@) is None ==> line_turn(
            line,
        ) is None,
        crate::json::json_member_of(crate::text::trimmed(line), "message"@) == Some(message) && (
        string_member(message, "role"@) is None || crate::json::json_member_of(
            message,
            "content"@,
        ) is None) ==> line_turn(line) is None,
        crate::json::json_member_of(crate::text::trimmed(line), "message"@) == Some(message)
            && crate::json::json_member_of(message, "content"@) == Some(content)
            && crate::json::json_text_of(content) is None && crate::json::json_items_of(content)
            is None ==> line_turn(line) is None,
{
    crate::text::law_trimmed(Seq::empty());
}

/// A line tells of a session where it names a working directory or a branch, and tells
/// just what it names.
pub proof fn law_line_metadata(line: Seq<char>)
    ensures
        ({
            let t = crate::text::trimmed(line);
            let (cwd, branch) = (string_member(t, "cwd"@), string_member(t, "gitBranch"@));
            &&& t.len() == 0 || (cwd is None && branch is None) <==> line_metadata(line) is None
            &&& line_metadata(line) matches Some(m) ==> m.cwd == cwd && m.git_branch == branch
        }),
{
}

} // verus!
