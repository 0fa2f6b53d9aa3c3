//! The dialogue with the language model: which way it is reached, what is sent,
//! and what is read out of the reply.

use vstd::prelude::*;

use crate::text::{join, same, take_chars};

verus! {

/// The most tokens of a reply.
pub const MAX_TOKENS: u32 = 4096;

/// The way the model is reached.
#[derive(Debug)]
pub enum Backend {
    /// Over HTTP, with a key.
    Api { api_key: String, model: String },
    /// With a program, which has its own credentials.
    Cli { model: String },
}

/// The best way there is: over HTTP where there is a key that is not empty, with
/// the program otherwise.
pub fn choose_backend(key: Option<String>, model: String) -> (r: Backend)
    ensures
        match r {
            Backend::Api { api_key, model: m } => key matches Some(k) && k@.len() > 0 && api_key@
                == k@ && m@ == model@,
            Backend::Cli { model: m } => (key matches Some(k) ==> k@.len() == 0) && m@ == model@,
        },
{
    match key {
        Some(k) => if k.as_str().is_empty() {
            Backend::Cli { model }
        } else {
            Backend::Api { api_key: k, model }
        },
        None => Backend::Cli { model },
    }
}

/// A block of a reply.
#[derive(Debug)]
pub struct ContentBlock {
    pub block_type: String,
    pub text: Option<String>,
}

/// What a block of a reply holds.
#[verifier::ext_equal]
pub struct ContentBlockView {
    pub block_type: Seq<char>,
    pub text: Option<Seq<char>>,
}

impl View for ContentBlock {
    type V = ContentBlockView;

    open spec fn view(&self) -> ContentBlockView {
        ContentBlockView {
            block_type: self.block_type@,
            text: crate::fragment::text_view(self.text),
        }
    }
}

/// What the blocks of a reply hold.
pub open spec fn content_block_views(v: Seq<ContentBlock>) -> Seq<ContentBlockView> {
    Seq::new(v.len(), |i: int| v[i]@)
}

/// The texts of the text blocks.
pub open spec fn text_blocks(blocks: Seq<ContentBlockView>) -> Seq<Seq<char>>
    decreases blocks.len(),
{
    if blocks.len() == 0 {
        Seq::empty()
    } else if blocks.last().block_type == "text"@ && blocks.last().text is Some {
        text_blocks(blocks.drop_last()).push(blocks.last().text->0)
    } else {
        text_blocks(blocks.drop_last())
    }
}

/// The text of a reply: its text blocks, each on lines of its own.
pub fn reply_text(blocks: &Vec<ContentBlock>) -> (r: String)
    ensures
        r@ == crate::text::joined(text_blocks(content_block_views(blocks@)), "\n"@),
{
    let ghost all = content_block_views(blocks@);
    let mut texts: Vec<String> = Vec::new();
    let mut i: usize = 0;
    assert(crate::text::views(texts@) == text_blocks(all.take(0)));
    while i < blocks.len()
        invariant
            i <= blocks.len(),
            all == content_block_views(blocks@),
            crate::text::views(texts@) == text_blocks(all.take(i as int)),
        decreases blocks.len() - i,
    {
        let b = &blocks[i];
        proof {
            assert(all.take(i + 1).drop_last() == all.take(i as int));
            assert(all.take(i + 1).last() == b@);
        }
        if same(b.block_type.as_str(), "text") {
            if let Some(t) = &b.text {
                let copy = t.clone();
                assert(crate::text::views(texts@.push(copy)) == crate::text::views(texts@).push(
                    copy@,
                ));
                texts.push(copy);
            }
        }
        i = i + 1;
    }
    assert(all.take(i as int) == all);
    join(&texts, "\n")
}

/// The words for a reply of a service that is no success.
pub fn api_error(service: &str, status: &str, body: &str) -> (r: String)
    ensures
        r@ == service@ + " API error "@ + status@ + ": "@ + body@,
{
    let mut s: String = service.to_owned();
    s.append(" API error ");
    s.append(status);
    s.append(": ");
    s.append(body);
    s
}

/// The words for a program that failed, with the beginning of what it said.
pub fn cli_error(program: &str, status: &str, stderr: &str) -> (r: String)
    ensures
        r@ == program@ + " CLI exited with "@ + status@ + ": "@ + crate::text::first_chars(
            stderr@,
            500,
        ),
{
    let mut s: String = program.to_owned();
    s.append(" CLI exited with ");
    s.append(status);
    s.append(": ");
    s.append(take_chars(stderr, 500).as_str());
    s
}

/// The arguments of the program.
pub open spec fn cli_arguments(model: Seq<char>) -> Seq<Seq<char>> {
    seq![
        "-p"@,
        "--model"@,
        model,
        "--no-session-persistence"@,
        "--output-format"@,
        "text"@,
        "--system-prompt"@,
        "You are a knowledge extraction engine. You MUST respond with ONLY valid JSON, no markdown, no explanation, no prose. If the input contains no extractable knowledge, respond with: {\"roots\": []}"@,
    ]
}

/// Lists the arguments of the program.
pub fn cli_args(model: &str) -> (r: Vec<String>)
    ensures
        crate::text::views(r@) == cli_arguments(model@),
{
    let mut out: Vec<String> = Vec::new();
    out.push("-p".to_owned());
    out.push("--model".to_owned());
    out.push(model.to_owned());
    out.push("--no-session-persistence".to_owned());
    out.push("--output-format".to_owned());
    out.push("text".to_owned());
    out.push("--system-prompt".to_owned());
    out.push(
        "You are a knowledge extraction engine. You MUST respond with ONLY valid JSON, no markdown, no explanation, no prose. If the input contains no extractable knowledge, respond with: {\"roots\": []}".to_owned(),
    );
    assert(crate::text::views(out@) == cli_arguments(model@));
    out
}

/// The program to run: the one in the home directory where it exists, or
/// whatever the search path has under its name.
pub fn claude_binary(local: Option<String>, program: &str) -> (r: String)
    ensures
        r@ == match local {
            Some(l) => l@,
            None => program@,
        },
{
    match local {
        Some(l) => l,
        None => program.to_owned(),
    }
}

// ---- laws ----

/// Every text block of a reply is in its text, behind those before it and on a line of its
/// own; other blocks say nothing.
pub proof fn law_reply_text(blocks: Seq<ContentBlockView>, b: ContentBlockView)
    ensures
        text_blocks(Seq::empty()).len() == 0,
        ({
            let before = text_blocks(blocks);
            let after = text_blocks(blocks.push(b));
            let says = b.block_type == "text"@ && b.text is Some;
            &&& says ==> after == before.push(b.text->0)
            &&& !says ==> after == before
            &&& says && before.len() > 0 ==> crate::text::joined(after, "\n"@)
                == crate::text::joined(before, "\n"@) + "\n"@ + b.text->0
            &&& says && before.len() == 0 ==> crate::text::joined(after, "\n"@) == b.text->0
        }),
{
    assert(blocks.push(b).drop_last() == blocks);
    let before = text_blocks(blocks);
    if b.block_type == "text"@ && b.text is Some {
        let t = b.text->0;
        crate::text::law_joined(before, seq![t], t, "\n"@);
        assert(before + seq![t] == before.push(t));
        if before.len() == 0 {
            assert(before.push(t) == seq![t]);
        }
    }
}

/// The program is told the model, and to answer once in plain text.
pub proof fn law_arguments(model: Seq<char>)
    ensures
        cli_arguments(model).len() == 8,
        cli_arguments(model)[1] == "--model"@ && cli_arguments(model)[2] == model,
        cli_arguments(model)[0] == "-p"@ && cli_arguments(model)[4] == "--output-format"@
            && cli_arguments(model)[5] == "text"@,
{
}

} // verus!
