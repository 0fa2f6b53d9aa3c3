//! Ingestion, digestion, consolidation and reflection.

use lore::changes::Stamp;
use lore::config::ConsolidationConfig;
use lore::consolidation::{
    accept_resummary, first_phase, forget, next_phase, phase1_root_merging,
    phase1_similarity_detection, phase1_topic_merging, phase2_link_creation, phase5_pruning,
    phase6_fragment_pruning, reparent_and_prune, resummary_prompt, run_consolidation,
    ConsolidationStats, Pair, Phase,
};
use lore::contradiction::{
    batch_prompt, check_contradiction_batch, collect_candidates, contradiction_prompt,
    cut_into_parts, read_answer,
};
use lore::digest::{
    digestion_parts, existing_roots, existing_topics, part_turns, plan_work, session_id,
    session_turns, sessions_to_digest,
};
use lore::digestion::{DigestEvent, DigestStep, Digestion};
use lore::edge::EdgeKind;
use lore::fragment::{now_unix, Fragment, FragmentId};
use lore::ingestion::{
    compression_prompt, extraction_prompt, generate_boundary, hex_text, parse_extraction,
    session_context_prefix, Extraction, ExtractionResult, SessionContext, Step, TopicRelationship,
};
use lore::parser::{
    find_session_metadata, format_conversation_batch, parse_jsonl_line, parse_session_metadata,
    ConversationTurn,
};
use lore::query::LoreDb;
use lore::reflection::{read_insight, reflection_prompt};
use lore::segments::detect_topic_boundaries;
use lore::storage::Storage;
use lore::store::{
    draw_seeds, prediction_error_multiplier, store_extraction_result, store_extraction_seeded,
};

const ONE: i64 = 1_000_000_000;

fn test_db() -> LoreDb {
    let storage = Storage::open_memory().unwrap();
    LoreDb::new_without_embeddings(storage)
}

fn billionths(x: f64) -> i64 {
    (x * 1e9).round() as i64
}

fn strings(list: &[&str]) -> Vec<String> {
    list.iter().map(|s| s.to_string()).collect()
}

fn make_result(trees: Vec<Vec<String>>) -> ExtractionResult {
    ExtractionResult {
        transcript: "test conversation".to_string(),
        trees,
        relationships: vec![],
    }
}

fn turn(role: &str, text: &str) -> ConversationTurn {
    ConversationTurn { role: role.to_string(), text: text.to_string() }
}

fn add(db: &mut LoreDb, content: &str, depth: u32, embedding: Vec<i32>) -> FragmentId {
    let mut f = Fragment::new(content.to_string(), depth);
    f.embedding = embedding;
    let id = f.id;
    db.storage_mut().insert_fragment(&f).unwrap();
    id
}

fn add_below(db: &mut LoreDb, parent: FragmentId, content: &str, embedding: Vec<i32>) -> FragmentId {
    let id = add(db, content, 1, embedding);
    db.link(parent, id, EdgeKind::Hierarchical, ONE).unwrap();
    id
}

// ---- prompts ----

#[test]
fn test_session_context_prefix() {
    let ctx = SessionContext {
        cwd: Some("/code/lore".to_string()),
        git_branch: Some("main".to_string()),
    };
    let prefix = session_context_prefix(Some(&ctx));
    assert!(prefix.contains("/code/lore"));
    assert!(prefix.contains("main"));
    assert_eq!(prefix, "Context — project: /code/lore, branch: main\n\n");

    let empty = session_context_prefix(None);
    assert!(empty.is_empty());
}

#[test]
fn a_context_without_details_is_an_empty_line() {
    let ctx = SessionContext { cwd: None, git_branch: None };
    assert_eq!(session_context_prefix(Some(&ctx)), "\n\n");
}

#[test]
fn test_prediction_error_multiplier_values() {
    assert_eq!(prediction_error_multiplier(None), billionths(1.0));

    let m = prediction_error_multiplier(Some(0)) as f64 / 1e9;
    assert!((m - 1.5).abs() < 0.01, "Got {}", m);

    let m = prediction_error_multiplier(Some(billionths(0.9))) as f64 / 1e9;
    assert!((m - 1.05).abs() < 0.01, "Got {}", m);

    let m = prediction_error_multiplier(Some(billionths(1.0))) as f64 / 1e9;
    assert!((m - 1.0).abs() < 0.01, "Got {}", m);

    let m = prediction_error_multiplier(Some(billionths(0.5))) as f64 / 1e9;
    assert!((m - 1.25).abs() < 0.01, "Got {}", m);
}

#[test]
fn novelty_is_kept_in_bounds() {
    assert_eq!(prediction_error_multiplier(Some(-ONE)), 1_500_000_000);
    assert_eq!(prediction_error_multiplier(Some(2 * ONE)), ONE);
}

#[test]
fn a_boundary_does_not_stand_in_the_content() {
    let b = generate_boundary("hello");
    assert_eq!(b.len(), 16);
    assert!(b.chars().all(|c| c.is_ascii_digit() || ('a'..='f').contains(&c)));
    assert_eq!(b, generate_boundary("hello"));
    assert_ne!(b, generate_boundary("hello!"));
    let content = format!("text with {} in it", b);
    assert!(!content.contains(&generate_boundary(&content)));
    assert_eq!(hex_text(255), "00000000000000ff");
    assert_eq!(hex_text(u64::MAX), "ffffffffffffffff");
}

#[test]
fn prompts_hold_what_they_are_about() {
    let p = extraction_prompt("CTX\n\n", "the transcript", "b0");
    assert!(p.starts_with("CTX\n\nExtract the knowledge worth remembering"));
    assert!(p.contains("<data-b0>\nthe transcript\n</data-b0>"));
    assert!(p.ends_with("no preamble, no JSON."));
    let text = "x".repeat(450);
    let c = compression_prompt("", &text).unwrap();
    assert!(c.contains("approximately 150 characters"));
    assert!(c.ends_with(&text));
    assert!(compression_prompt("", &"x".repeat(449)).is_none());
}

// ---- extraction ----

#[test]
fn topics_and_relationships_are_read() {
    let reply = "First topic\n---\n  Second topic  \n---\n\n---\nThird\n===RELATIONSHIPS===\n\
                 1<>2<>builds on\n2 <> 3 <> a <> b\n0<>1<>no\n1<>4<>no\nnonsense\n1<>x<>no";
    let (topics, relationships) = parse_extraction(reply);
    assert_eq!(topics, vec!["First topic", "Second topic", "Third"]);
    assert_eq!(relationships.len(), 2);
    assert_eq!((relationships[0].topic_a, relationships[0].topic_b), (0, 1));
    assert_eq!(relationships[0].description, "builds on");
    assert_eq!((relationships[1].topic_a, relationships[1].topic_b), (1, 2));
    assert_eq!(relationships[1].description, "a <> b");
}

#[test]
fn an_extraction_asks_for_topics_and_summaries() {
    let turns = vec![turn("user", "Why?"), turn("assistant", "Because.")];
    let mut e = Extraction::start(&turns, None);
    match e.next_step() {
        Step::AskForTopics(p) => assert!(p.contains("### User\nWhy?")),
        _ => panic!("topics first"),
    }
    let long = "y".repeat(600);
    e.take_reply(&format!("short\n---\n{}\n", long));
    match e.next_step() {
        Step::AskForSummary(p) => assert!(p.contains("approximately 200 characters")),
        _ => panic!("a long topic is summed up"),
    }
    e.take_reply("  a summary  ");
    assert!(matches!(e.next_step(), Step::Done));
    let r = e.finish();
    assert_eq!(r.trees, vec![strings(&["short"]), vec!["a summary".to_string(), long]]);
    assert_eq!(r.transcript, "### User\nWhy?\n\n### Assistant\nBecause.\n\n");
    assert!(r.relationships.is_empty());
}

#[test]
fn an_extraction_can_find_nothing() {
    let mut e = Extraction::start(&vec![turn("user", "Hi")], None);
    e.take_reply(" EMPTY\n");
    assert!(matches!(e.next_step(), Step::Done));
    assert!(e.finish().trees.is_empty());

    let e = Extraction::start(&vec![], None);
    assert!(matches!(e.next_step(), Step::Done));
    assert_eq!(e.finish().transcript, "");
}

#[test]
fn a_blank_summary_ends_a_tree() {
    let mut e = Extraction::start(&vec![turn("user", "Hi")], None);
    let long = "z".repeat(500);
    e.take_reply(&long);
    assert!(matches!(e.next_step(), Step::AskForSummary(_)));
    e.take_reply("   ");
    assert!(matches!(e.next_step(), Step::Done));
    assert_eq!(e.finish().trees, vec![vec![long]]);
}

#[test]
fn a_long_summary_is_summed_up_again() {
    let mut e = Extraction::start(&vec![turn("user", "Hi")], None);
    e.take_reply(&"a".repeat(1500));
    assert!(matches!(e.next_step(), Step::AskForSummary(_)));
    e.take_reply(&"b".repeat(500));
    assert!(matches!(e.next_step(), Step::AskForSummary(_)));
    e.take_reply(&"c".repeat(150));
    assert!(matches!(e.next_step(), Step::Done));
    let trees = e.finish().trees;
    assert_eq!(trees[0].len(), 3);
    assert!(trees[0][0].starts_with('c'));
    assert!(trees[0][2].starts_with('a'));
}

// ---- storing ----

#[test]
fn test_store_extraction_result_empty() {
    let mut db = test_db();
    let result = ExtractionResult {
        transcript: "hello".to_string(),
        trees: vec![],
        relationships: vec![],
    };
    let count = store_extraction_result(&mut db, &result, None).unwrap();
    assert_eq!(count, 0);
}

#[test]
fn test_store_extraction_result_with_trees() {
    let mut db = test_db();
    let result = ExtractionResult {
        transcript: "raw conversation here".to_string(),
        trees: vec![
            strings(&["broad concept", "detailed knowledge"]),
            strings(&["another concept"]),
        ],
        relationships: vec![],
    };
    let count = store_extraction_result(&mut db, &result, Some("session-1")).unwrap();
    assert_eq!(count, 4);

    let roots = db.list_roots(None);
    assert_eq!(roots.len(), 2);
}

#[test]
fn store_extraction_without_embedder_uses_default_routing() {
    let mut db = test_db();

    let result1 = make_result(vec![strings(&[
        "Rust error handling patterns",
        "Use thiserror for libraries",
    ])]);
    let count1 = store_extraction_result(&mut db, &result1, Some("s1")).unwrap();
    assert_eq!(count1, 3);

    let result2 = make_result(vec![strings(&[
        "Rust error handling best practices",
        "Box errors to avoid inflation",
    ])]);
    let count2 = store_extraction_result(&mut db, &result2, Some("s2")).unwrap();
    assert_eq!(count2, 3);

    let roots = db.list_roots(None);
    let knowledge_roots: Vec<_> = roots
        .iter()
        .filter(|r| (r.importance - billionths(0.1)).abs() > billionths(0.01))
        .collect();
    assert_eq!(knowledge_roots.len(), 2, "Without embedder, should create separate roots");
}

#[test]
fn store_extraction_importance_unchanged_without_embedder() {
    let mut db = test_db();

    let result =
        make_result(vec![strings(&["Root concept", "Middle detail", "Leaf observation"])]);
    store_extraction_result(&mut db, &result, Some("test")).unwrap();

    let roots: Vec<_> = db
        .list_roots(None)
        .into_iter()
        .filter(|r| (r.importance - billionths(0.1)).abs() > billionths(0.01))
        .collect();
    assert_eq!(roots.len(), 1);
    let root = &roots[0];

    assert!((root.importance - billionths(0.9)).abs() < billionths(0.01));

    let children = db.children(root.id);
    assert_eq!(children.len(), 1);
    let mid = &children[0];
    assert!((mid.importance - billionths(0.7)).abs() < billionths(0.01));

    let leaves = db.children(mid.id);
    assert_eq!(leaves.len(), 1);
    let leaf = &leaves[0];
    assert!((leaf.importance - billionths(0.5)).abs() < billionths(0.01));
}

#[test]
fn a_tree_that_fits_goes_below_its_root() {
    let mut db = test_db();
    let root = add(&mut db, "Existing root", 0, vec![100_000_000, 0]);
    let result = make_result(vec![strings(&["Fits well", "Detail"]), strings(&["Novel"])]);
    let mut seeds = draw_seeds(&result);
    seeds.trees[0][0].embedding = Some(vec![100_000_000, 10_000_000]);
    seeds.trees[1][0].embedding = Some(vec![0, 100_000_000]);
    let count = store_extraction_seeded(&mut db, &result, None, &seeds).unwrap();
    assert_eq!(count, 4);
    let children = db.children(root);
    assert_eq!(children.len(), 1);
    assert_eq!(children[0].content, "Fits well");
    assert_eq!(children[0].depth, 1);
    let below = db.children(children[0].id);
    assert_eq!(below[0].content, "Detail");
    assert_eq!(below[0].depth, 2);
    let roots = db.list_roots(None);
    assert_eq!(roots.len(), 2);
    let novel = roots.iter().find(|r| r.content == "Novel").unwrap();
    // 0.9 * 1.5, kept at one
    assert_eq!(novel.importance, ONE);
}

fn followers(db: &LoreDb, id: FragmentId) -> Vec<FragmentId> {
    db.storage()
        .edges()
        .iter()
        .filter(|e| e.kind == EdgeKind::Temporal && e.source == id)
        .map(|e| e.target)
        .collect()
}

#[test]
fn siblings_keep_their_reading_order() {
    let mut db = test_db();
    let root = add(&mut db, "Existing root", 0, vec![100_000_000, 0]);
    let result = make_result(vec![
        strings(&["First", "Detail"]),
        strings(&["Second"]),
        strings(&["Elsewhere"]),
        strings(&["Third"]),
    ]);
    let mut seeds = draw_seeds(&result);
    for t in [0, 1, 3] {
        seeds.trees[t][0].embedding = Some(vec![100_000_000, 0]);
    }
    seeds.trees[2][0].embedding = Some(vec![0, 100_000_000]);
    assert_eq!(store_extraction_seeded(&mut db, &result, None, &seeds), Ok(6));
    let children = db.children(root);
    let names: Vec<&str> = children.iter().map(|c| c.content.as_str()).collect();
    assert_eq!(names, vec!["First", "Second", "Third"]);
    assert_eq!(followers(&db, children[0].id), vec![children[1].id]);
    assert_eq!(followers(&db, children[1].id), vec![children[2].id]);
    assert!(followers(&db, children[2].id).is_empty());
    let temporal: Vec<i64> = db
        .storage()
        .edges()
        .iter()
        .filter(|e| e.kind == EdgeKind::Temporal)
        .map(|e| e.weight)
        .collect();
    assert_eq!(temporal, vec![ONE, ONE]);
}

#[test]
fn leaves_and_relationships_are_linked() {
    let mut db = test_db();
    let mut result = make_result(vec![strings(&["One", "Leaf"]), vec![], strings(&["Two"])]);
    result.relationships = vec![
        TopicRelationship { topic_a: 0, topic_b: 1, description: "relates".to_string() },
        TopicRelationship { topic_a: 0, topic_b: 7, description: "nowhere".to_string() },
    ];
    let count = store_extraction_result(&mut db, &result, Some("s")).unwrap();
    assert_eq!(count, 4);
    assert_eq!(db.storage().fragment_count(), 4);
    let roots = db.list_roots(None);
    let one = roots.iter().find(|r| r.content == "One").unwrap();
    let two = roots.iter().find(|r| r.content == "Two").unwrap();
    assert_eq!(one.source_session.as_deref(), Some("s"));
    let edges = db.storage().get_edges_for(one.id);
    assert!(edges
        .iter()
        .any(|e| e.target == two.id && e.content.as_deref() == Some("relates")));
    let leaf = &db.children(one.id)[0];
    let transcript = &db.associations(leaf.id)[0];
    assert_eq!(transcript.content, "test conversation");
    assert_eq!(transcript.depth, 3);
    assert_eq!(transcript.importance, 100_000_000);
}

// ---- parsing ----

#[test]
fn test_parse_user_message_string_content() {
    let line = r#"{"type":"user","message":{"role":"user","content":"How does tokio work?"}}"#;
    let turn = parse_jsonl_line(line).unwrap();
    assert_eq!(turn.role, "user");
    assert_eq!(turn.text, "How does tokio work?");
}

#[test]
fn test_parse_assistant_message_array_content() {
    let line = r#"{"type":"assistant","message":{"role":"assistant","content":[{"type":"text","text":"Tokio is an async runtime."}]}}"#;
    let turn = parse_jsonl_line(line).unwrap();
    assert_eq!(turn.role, "assistant");
    assert_eq!(turn.text, "Tokio is an async runtime.");
}

#[test]
fn test_skip_tool_only_message() {
    let line = r#"{"type":"assistant","message":{"role":"assistant","content":[{"type":"tool_use","id":"123","name":"read_file","input":{}}]}}"#;
    assert!(parse_jsonl_line(line).is_none());
}

#[test]
fn test_skip_empty_line() {
    assert!(parse_jsonl_line("").is_none());
    assert!(parse_jsonl_line("  ").is_none());
}

#[test]
fn test_format_batch() {
    let turns = vec![
        ConversationTurn { role: "user".to_string(), text: "Hello".to_string() },
        ConversationTurn { role: "assistant".to_string(), text: "Hi there!".to_string() },
    ];
    let formatted = format_conversation_batch(&turns);
    assert!(formatted.contains("### User\nHello"));
    assert!(formatted.contains("### Assistant\nHi there!"));
    assert_eq!(formatted, "### User\nHello\n\n### Assistant\nHi there!\n\n");
}

#[test]
fn long_reasoning_is_kept_and_cut_off() {
    let short = "s".repeat(50);
    let long = "l".repeat(600);
    let line = format!(
        r#"{{"message":{{"role":"assistant","content":[{{"type":"thinking","thinking":"{}"}},{{"type":"thinking","thinking":"{}"}},{{"type":"text","text":"Done"}},{{"type":"text"}},7]}}}}"#,
        short, long
    );
    let turn = parse_jsonl_line(&line).unwrap();
    assert_eq!(turn.text, format!("[Reasoning: {}]\n\nDone", "l".repeat(500)));
}

#[test]
fn lines_that_are_no_messages_are_skipped() {
    assert!(parse_jsonl_line("not json").is_none());
    assert!(parse_jsonl_line("[]").is_none());
    assert!(parse_jsonl_line(r#"{"message":{"role":"user"}}"#).is_none());
    assert!(parse_jsonl_line(r#"{"message":{"content":"x"}}"#).is_none());
    assert!(parse_jsonl_line(r#"{"message":{"role":"user","content":17}}"#).is_none());
    assert!(parse_jsonl_line(r#"{"message":{"role":"user","content":" \n "}}"#).is_none());
    assert_eq!(
        parse_jsonl_line("  {\"message\":{\"role\":\"tool\",\"content\":\"a\\nb\"}} ").unwrap().text,
        "a\nb"
    );
    assert_eq!(format_conversation_batch(&vec![turn("tool", "x")]), "### System\nx\n\n");
}

#[test]
fn session_metadata_is_found_in_the_first_lines() {
    let m = parse_session_metadata(r#"{"cwd":"/code","gitBranch":"main"}"#).unwrap();
    assert_eq!(m.cwd.as_deref(), Some("/code"));
    assert_eq!(m.git_branch.as_deref(), Some("main"));
    assert!(parse_session_metadata("{}").is_none());
    assert!(parse_session_metadata("no json").is_none());
    let lines = strings(&["{}", "x", r#"{"cwd":"/a"}"#, r#"{"cwd":"/b"}"#]);
    let m = find_session_metadata(&lines);
    assert_eq!(m.cwd.as_deref(), Some("/a"));
    assert!(m.git_branch.is_none());
    let late = strings(&["{}", "{}", "{}", "{}", "{}", r#"{"cwd":"/late"}"#]);
    assert!(find_session_metadata(&late).cwd.is_none());
}

// ---- boundaries ----

#[test]
fn boundary_detection_empty_conversation() {
    let turns: Vec<ConversationTurn> = vec![];
    let boundaries = detect_topic_boundaries(&turns);
    assert_eq!(boundaries, vec![0], "Empty conversation: single segment of len 0");
}

#[test]
fn boundary_detection_single_turn() {
    let turns = vec![ConversationTurn {
        role: "user".to_string(),
        text: "Hello world".to_string(),
    }];
    let boundaries = detect_topic_boundaries(&turns);
    assert_eq!(boundaries, vec![1], "Single turn: one segment");
}

#[test]
fn boundary_detection_exactly_min_segment_times_two() {
    let turns: Vec<ConversationTurn> = (0..12)
        .map(|i| ConversationTurn {
            role: if i % 2 == 0 { "user" } else { "assistant" }.to_string(),
            text: format!("Generic conversation message number {}", i),
        })
        .collect();
    let boundaries = detect_topic_boundaries(&turns);
    assert_eq!(*boundaries.last().unwrap(), 12, "Last boundary should be end of turns");
    assert_eq!(boundaries.len(), 1, "Same-topic turns should not be split");
}

#[test]
fn boundary_detection_sharp_topic_shift() {
    let mut turns = Vec::new();
    for _ in 0..8 {
        turns.push(turn(
            "user",
            "How does PostgreSQL handle concurrent transactions with MVCC isolation levels?",
        ));
    }
    for _ in 0..8 {
        turns.push(turn(
            "user",
            "What temperature should I use to bake sourdough bread in a Dutch oven?",
        ));
    }

    let boundaries = detect_topic_boundaries(&turns);
    assert!(boundaries.len() >= 2, "Should detect at least 1 boundary, got {:?}", boundaries);

    if boundaries.len() > 1 {
        let split_point = boundaries[0];
        assert!(
            split_point >= 6 && split_point <= 10,
            "Boundary should be near the topic shift at turn 8, got {}",
            split_point
        );
    }
}

#[test]
fn boundary_detection_three_topics() {
    let mut turns = Vec::new();
    for _ in 0..8 {
        turns.push(turn("user", "The Rust borrow checker ensures memory safety through lifetime annotations and ownership rules"));
    }
    for _ in 0..8 {
        turns.push(turn("user", "Sourdough starter needs regular feeding with flour and water to maintain yeast activity"));
    }
    for _ in 0..8 {
        turns.push(turn("user", "The James Webb Space Telescope orbits the Sun at the L2 Lagrange point observing infrared light"));
    }

    let boundaries = detect_topic_boundaries(&turns);
    assert!(
        boundaries.len() >= 2,
        "Should detect at least 2 boundaries for 3 topics, got {:?}",
        boundaries
    );
}

#[test]
fn boundary_detection_gradual_topic_drift() {
    let topics = [
        "Rust programming language features like ownership and borrowing",
        "Rust memory safety model prevents common bugs in systems programming",
        "Systems programming requires careful memory management and resource handling",
        "Resource management in operating systems involves scheduling and allocation",
        "Operating system kernel scheduling algorithms balance fairness and throughput",
        "Algorithm design for throughput optimization in distributed computing",
        "Distributed computing systems require network protocol design and coordination",
        "Network protocol design involves packet routing and error correction",
    ];

    let mut turns = Vec::new();
    for topic in &topics {
        for _ in 0..3 {
            turns.push(turn("user", topic));
        }
    }

    let boundaries = detect_topic_boundaries(&turns);
    assert!(*boundaries.last().unwrap() == turns.len(), "Last boundary should be end of turns");
}

#[test]
fn boundary_detection_with_very_short_messages() {
    let mut turns = Vec::new();
    for _ in 0..8 {
        turns.push(turn("user", "ok so if we do it then yes"));
    }
    for _ in 0..8 {
        turns.push(turn("assistant", "I can do that for you now"));
    }

    let boundaries = detect_topic_boundaries(&turns);
    assert!(*boundaries.last().unwrap() == 16, "Should handle short words gracefully");
}

#[test]
fn boundary_detection_preserves_segment_ordering() {
    let mut turns = Vec::new();
    for _ in 0..8 {
        turns.push(turn(
            "user",
            "Database indexing strategies for PostgreSQL with B-tree and hash indexes",
        ));
    }
    for _ in 0..8 {
        turns.push(turn(
            "user",
            "Chocolate cake recipe with buttercream frosting and ganache decoration",
        ));
    }

    let boundaries = detect_topic_boundaries(&turns);

    for window in boundaries.windows(2) {
        assert!(window[0] < window[1], "Boundaries should be strictly increasing");
    }
    assert_eq!(*boundaries.last().unwrap(), 16, "Last boundary should be end");

    let mut start = 0;
    for &end in &boundaries {
        assert!(end > start, "Each segment should have at least 1 turn");
        assert!(
            end - start >= 6 || end == turns.len(),
            "Each segment should have >= MIN_SEGMENT_TURNS (6), got {}",
            end - start
        );
        start = end;
    }
}

#[test]
fn parts_follow_segments_and_size() {
    let mut turns = Vec::new();
    for _ in 0..8 {
        turns.push(turn("user", "Database indexing strategies for PostgreSQL"));
    }
    for _ in 0..8 {
        turns.push(turn("user", "Chocolate cake recipe with buttercream frosting"));
    }
    assert_eq!(digestion_parts(&turns, 100), vec![(0, 8), (8, 16)]);
    assert_eq!(digestion_parts(&turns, 5), vec![(0, 5), (5, 8), (8, 13), (13, 16)]);
    assert!(digestion_parts(&vec![], 5).is_empty());
    let part = part_turns(&turns, 7, 9);
    assert_eq!(part.len(), 2);
    assert!(part[1].text.starts_with("Chocolate"));
    assert_eq!(cut_into_parts(5, 2), vec![(0, 2), (2, 4), (4, 5)]);
    assert!(cut_into_parts(0, 2).is_empty());
}

// ---- digestion ----

#[test]
fn idle_sessions_are_digested_first() {
    let mut db = test_db();
    let one = vec![("user".to_string(), "x".to_string())];
    for i in 0..12i64 {
        db.storage_mut().stage_turns_at(&format!("/p/s{}.jsonl", i), &one, 1000 - i).unwrap();
    }
    let sessions = sessions_to_digest(&db, 300, 2000);
    assert_eq!(sessions.len(), 10);
    assert_eq!(sessions[0].file_path, "/p/s11.jsonl");
    assert!(sessions_to_digest(&db, 300, 1200).is_empty());
    assert_eq!(session_turns(&db, "/p/s3.jsonl")[0].text, "x");
    assert_eq!(session_id("/p/s3.jsonl").as_deref(), Some("s3"));
}

fn asked(d: &Digestion) -> Option<(String, Vec<String>)> {
    match d.next_step() {
        DigestStep::Extract { file_path, turns } => {
            Some((file_path, turns.into_iter().map(|t| t.text).collect()))
        }
        DigestStep::Done => None,
    }
}

#[test]
fn digested_sessions_lose_their_turns() {
    let mut db = test_db();
    let mut put = |path: &str, texts: &[&str], at: i64| {
        let turns: Vec<(String, String)> =
            texts.iter().map(|t| ("user".to_string(), t.to_string())).collect();
        db.storage_mut().stage_turns_at(path, &turns, at).unwrap();
    };
    put("/p/a.jsonl", &["a1", "a2", "a3"], 10);
    put("/p/b.jsonl", &["b1"], 20);
    put("/p/busy.jsonl", &["c1"], 1990);

    let mut d = Digestion::start(&db, 300, 2, 2000);
    assert_eq!(asked(&d), Some(("/p/a.jsonl".to_string(), strings(&["a1", "a2"]))));
    let found = make_result(vec![vec!["Root".to_string(), "Leaf".to_string()]]);
    d.take_event(&mut db, DigestEvent::Extracted(found));
    // The transcript is a fragment too.
    assert_eq!(d.counts(), (0, 3));
    assert_eq!(db.storage().get_staged_turns("/p/a.jsonl").len(), 3);

    assert_eq!(asked(&d), Some(("/p/a.jsonl".to_string(), strings(&["a3"]))));
    d.take_event(&mut db, DigestEvent::Failed);
    assert_eq!(d.counts(), (1, 3));
    assert!(db.storage().get_staged_turns("/p/a.jsonl").is_empty());
    assert_eq!(db.storage().get_staged_turns("/p/b.jsonl").len(), 1);

    assert_eq!(asked(&d), Some(("/p/b.jsonl".to_string(), strings(&["b1"]))));
    d.take_event(&mut db, DigestEvent::Failed);
    assert_eq!(asked(&d), None);
    assert_eq!(d.counts(), (2, 3));
    assert!(db.storage().get_staged_turns("/p/b.jsonl").is_empty());
    assert_eq!(db.storage().get_staged_turns("/p/busy.jsonl").len(), 1);
    assert_eq!(db.storage().fragments().len(), 3);
    assert!(db
        .storage()
        .fragments()
        .iter()
        .any(|f| f.content == "Root" && f.source_session.as_deref() == Some("a")));
}

#[test]
fn digested_knowledge_goes_where_its_embeddings_fit() {
    let mut db = test_db();
    let root = add(&mut db, "Existing root", 0, vec![100_000_000, 0]);
    let one = vec![("user".to_string(), "x".to_string())];
    db.storage_mut().stage_turns_at("/p/a.jsonl", &one, 10).unwrap();
    let mut d = Digestion::start(&db, 300, 5, 2000);
    let result = make_result(vec![strings(&["Fits"]), strings(&["Novel"])]);
    let mut seeds = draw_seeds(&result);
    seeds.trees[0][0].embedding = Some(vec![100_000_000, 0]);
    seeds.trees[1][0].embedding = Some(vec![0, 100_000_000]);
    d.take_event(&mut db, DigestEvent::Seeded(result, seeds));
    assert_eq!(d.counts(), (1, 3));
    assert_eq!(asked(&d), None);
    assert!(db.storage().get_staged_turns("/p/a.jsonl").is_empty());
    let children = db.children(root);
    assert_eq!(children.len(), 1);
    assert_eq!(children[0].content, "Fits");
    assert_eq!(children[0].importance, 900_000_000);
    assert_eq!(children[0].source_session.as_deref(), Some("a"));
    let novel = db.storage().fragments().iter().find(|f| f.content == "Novel").unwrap();
    assert_eq!(novel.importance, ONE);
    assert!(db.parent(novel.id).is_none());
}

#[test]
fn without_idle_sessions_a_digestion_is_done() {
    let db = test_db();
    let d = Digestion::start(&db, 300, 1, 2000);
    assert_eq!(asked(&d), None);
    assert_eq!(d.counts(), (0, 0));
}

#[test]
fn trees_without_embeddings_stand_alone() {
    let mut db = test_db();
    let trees = vec![vec!["Top".to_string(), "Middle".to_string(), "Full text".to_string()]];
    store_extraction_result(&mut db, &make_result(trees), Some("s")).unwrap();
    let levels: Vec<&Fragment> = ["Top", "Middle", "Full text"]
        .iter()
        .map(|c| db.storage().fragments().iter().find(|f| f.content == *c).unwrap())
        .collect();
    assert!(levels.iter().all(|f| f.embedding.is_empty()));
    assert_eq!(levels.iter().map(|f| f.depth).collect::<Vec<u32>>(), vec![0, 1, 2]);
    assert_eq!(
        levels.iter().map(|f| f.importance).collect::<Vec<i64>>(),
        vec![900_000_000, 700_000_000, 500_000_000]
    );
    assert!(db.parent(levels[0].id).is_none());
    assert_eq!(db.parent(levels[1].id).unwrap().id, levels[0].id);
    assert_eq!(db.parent(levels[2].id).unwrap().id, levels[1].id);
    assert!(levels.iter().all(|f| f.created_at == f.last_accessed));
}

#[test]
fn what_is_known_is_told() {
    let mut db = test_db();
    let root = Fragment::new("Root".to_string(), 0).with_summary("R".to_string());
    let id = db.insert(root, None).unwrap();
    let child = Fragment::new("Child".to_string(), 1).with_summary("C".to_string());
    db.insert(child, Some(id)).unwrap();
    let roots = existing_roots(&db);
    assert_eq!(roots.len(), 1);
    assert_eq!(roots[0].id, id.as_str());
    assert_eq!(roots[0].content, "Root");
    assert_eq!(roots[0].children_content, vec!["Child"]);
    let topics = existing_topics(&db);
    assert_eq!(topics[0].summary, "R");
    assert_eq!(topics[0].children_summaries, vec!["C"]);
}

#[test]
fn work_is_planned_for_new_turns() {
    assert!(plan_work("/p/s.jsonl", 0, 10, 4).is_none());
    let w = plan_work("/p/s.jsonl", 9, 10, 4).unwrap();
    assert_eq!(w.file_path, "/p/s.jsonl");
    assert_eq!(w.session_id.as_deref(), Some("s"));
    assert_eq!(w.parts, vec![(0, 4), (4, 8), (8, 9)]);
    assert_eq!(w.new_offset, 10);
}

// ---- clusters ----

#[test]
fn dense_cluster_requires_minimum_connections() {
    let mut db = test_db();

    let result = make_result(vec![
        strings(&["Topic A: Rust patterns"]),
        strings(&["Topic B: Go patterns"]),
    ]);
    store_extraction_result(&mut db, &result, Some("s1")).unwrap();

    let roots: Vec<_> = db
        .list_roots(None)
        .into_iter()
        .filter(|r| (r.importance - billionths(0.1)).abs() > billionths(0.01))
        .collect();

    if roots.len() >= 2 {
        db.link(roots[0].id, roots[1].id, EdgeKind::Associative, billionths(0.8)).unwrap();
    }

    for root in &roots {
        let edges = db.storage().get_edges_for(root.id);
        let root_ids: std::collections::HashSet<_> = roots.iter().map(|r| r.id).collect();
        let root_connections: Vec<_> = edges
            .iter()
            .filter(|e| e.kind == EdgeKind::Associative)
            .filter(|e| {
                let neighbor = if e.source == root.id { e.target } else { e.source };
                root_ids.contains(&neighbor)
            })
            .collect();

        assert!(
            root_connections.len() < 3,
            "With only 2 roots, no root should have >= 3 connections"
        );
        assert_eq!(db.find_connected_roots(root.id).len(), root_connections.len());
    }
    assert!(db.find_centres().is_empty());
}

#[test]
fn dense_cluster_detected_with_sufficient_connections() {
    let mut db = test_db();

    let mut roots = Vec::new();
    for i in 0..4 {
        let frag = Fragment::new(format!("Topic {}", i), 0);
        db.storage_mut().insert_fragment(&frag).unwrap();
        roots.push(frag.id);
    }

    for i in 1..4 {
        db.link(roots[0], roots[i], EdgeKind::Associative, billionths(0.8)).unwrap();
    }

    let edges = db.storage().get_edges_for(roots[0]);
    let assoc_to_roots: Vec<_> =
        edges.iter().filter(|e| e.kind == EdgeKind::Associative).collect();
    assert_eq!(assoc_to_roots.len(), 3, "Center root should have 3 associative edges");
    let centres = db.find_centres();
    assert_eq!(centres.len(), 1);
    assert_eq!(centres[0].id, roots[0]);
}

#[test]
fn derived_from_edge_prevents_duplicate_reflection() {
    let mut db = test_db();

    let center = Fragment::new("Center topic".to_string(), 0);
    db.storage_mut().insert_fragment(&center).unwrap();

    for i in 0..3 {
        let frag = Fragment::new(format!("Connected topic {}", i), 0);
        db.storage_mut().insert_fragment(&frag).unwrap();
        db.link(center.id, frag.id, EdgeKind::Associative, billionths(0.8)).unwrap();
    }
    assert_eq!(db.find_centres().len(), 1);

    let reflection = Fragment::new("Existing reflection".to_string(), 0);
    db.storage_mut().insert_fragment(&reflection).unwrap();
    db.link_with_content(
        center.id,
        reflection.id,
        EdgeKind::Associative,
        billionths(1.0),
        Some("derived_from".to_string()),
    )
    .unwrap();

    let edges = db.storage().get_edges_for(center.id);
    let has_reflection = edges.iter().any(|e| e.content.as_deref() == Some("derived_from"));
    assert!(
        has_reflection,
        "Center should have a derived_from edge indicating existing reflection"
    );
    assert!(db.find_centres().is_empty());
}

#[test]
fn an_insight_becomes_a_root() {
    let mut db = test_db();
    let a = add(&mut db, "A", 0, vec![]);
    let b = add(&mut db, "B", 0, vec![]);
    db.reflect("What they share", None, &vec![a, b]).unwrap();
    let roots = db.list_roots(None);
    let insight = roots.iter().find(|r| r.content == "What they share").unwrap();
    assert_eq!(insight.metadata.get("type").as_deref(), Some("reflection"));
    for id in [a, b] {
        let edges = db.storage().get_edges_for(id);
        assert_eq!(edges.len(), 1);
        assert_eq!(edges[0].target, insight.id);
        assert_eq!(edges[0].content.as_deref(), Some("derived_from"));
    }
    assert!(db.reflect("Nothing", None, &vec![FragmentId::new()]).is_err());
}

#[test]
fn an_insight_is_asked_for_and_read() {
    let centre = Fragment::new("C".to_string(), 0);
    let around = vec![Fragment::new("X".to_string(), 0), Fragment::new("Y".to_string(), 0)];
    let p = reflection_prompt(&centre, &around);
    assert!(p.contains("- C\n- X\n- Y\n\n"));
    assert_eq!(read_insight("  insight \n").as_deref(), Some("insight"));
    assert!(read_insight(" \n ").is_none());
}

// ---- consolidation ----

#[test]
fn consolidation_stats_include_reflections_field() {
    let mut db = test_db();

    let result = make_result(vec![strings(&["Topic about Rust"])]);
    store_extraction_result(&mut db, &result, Some("s1")).unwrap();

    let config = ConsolidationConfig::default();
    let stats = run_consolidation(&mut db, &config, now_unix()).unwrap();

    assert_eq!(
        stats.reflections_generated, 0,
        "Without API key, no reflections should be generated"
    );
}

#[test]
fn consolidation_runs_all_phases_without_api_key() {
    let mut db = test_db();

    let result = make_result(vec![
        strings(&["Topic A", "Detail A"]),
        strings(&["Topic B", "Detail B"]),
        strings(&["Topic C", "Detail C"]),
    ]);
    store_extraction_result(&mut db, &result, Some("s1")).unwrap();

    let config = ConsolidationConfig::default();
    let stats = run_consolidation(&mut db, &config, now_unix()).unwrap();

    assert!(stats.relevance_updated > 0, "Should recompute relevance");
    assert_eq!(stats.reflections_generated, 0);
    assert_eq!(stats.contradictions_resolved, 0);
}

#[test]
fn parts_of_a_cycle_come_in_order() {
    let mut with = vec![first_phase(true)];
    while *with.last().unwrap() != Phase::Done {
        with.push(next_phase(*with.last().unwrap(), true));
    }
    assert_eq!(
        with,
        vec![
            Phase::Digestion,
            Phase::Settling,
            Phase::Resummarization,
            Phase::Reflection,
            Phase::Contradictions,
            Phase::Forgetting,
            Phase::Done,
        ]
    );
    assert_eq!(first_phase(false), Phase::Settling);
    assert_eq!(next_phase(Phase::Settling, false), Phase::Forgetting);
}

#[test]
fn similar_roots_are_merged_into_the_one_accessed_more() {
    let mut db = test_db();
    let a = add(&mut db, "A", 0, vec![100_000_000, 0]);
    let b = add(&mut db, "B", 0, vec![100_000_000, 1_000_000]);
    let far = add(&mut db, "Far", 0, vec![0, 100_000_000]);
    let child = add_below(&mut db, a, "Child of A", vec![]);
    db.storage_mut().touch_fragment(b);
    let pairs = phase1_similarity_detection(&db, billionths(0.8));
    assert_eq!(pairs.len(), 1);
    assert!(pairs[0].similarity > billionths(0.99));
    assert_eq!(phase1_root_merging(&mut db, &pairs, billionths(0.85)).unwrap(), 1);
    let victim = db.storage().get_fragment(a).unwrap();
    assert_eq!(victim.superseded_by, Some(b));
    assert_eq!(db.children(b)[0].id, child);
    assert!(db.children(a).is_empty());
    assert_eq!(db.list_roots(None).len(), 2);
    assert!(db.storage().get_fragment(far).unwrap().superseded_by.is_none());
    // A second run finds the pair merged already.
    assert_eq!(phase1_root_merging(&mut db, &pairs, billionths(0.85)).unwrap(), 0);
}

#[test]
fn topics_are_merged_only_if_almost_the_same() {
    let mut db = test_db();
    let a = add(&mut db, "A", 0, vec![1, 0]);
    let b = add(&mut db, "B", 0, vec![1, 0]);
    let close = vec![Pair { a, b, similarity: billionths(0.9) }];
    assert_eq!(phase1_topic_merging(&mut db, &close).unwrap(), 0);
    let same = vec![Pair { a, b, similarity: billionths(0.9) + 1 }];
    assert_eq!(phase1_topic_merging(&mut db, &same).unwrap(), 1);
}

#[test]
fn related_children_are_linked() {
    let mut db = test_db();
    let a = add(&mut db, "A", 0, vec![1, 0]);
    let b = add(&mut db, "B", 0, vec![1, 0]);
    let ca = add_below(&mut db, a, "CA", vec![100, 0]);
    let cb = add_below(&mut db, b, "CB", vec![100, 1]);
    let _other = add_below(&mut db, b, "Other", vec![0, 100]);
    let pairs = vec![Pair { a, b, similarity: ONE }];
    assert_eq!(phase2_link_creation(&mut db, &pairs).unwrap(), 1);
    assert_eq!(db.associations(ca)[0].id, cb);
}

#[test]
fn associations_lose_weight_and_weak_ones_go() {
    let mut db = test_db();
    let a = add(&mut db, "A", 0, vec![]);
    let b = add(&mut db, "B", 0, vec![]);
    db.link(a, b, EdgeKind::Associative, billionths(1.0)).unwrap();
    db.link(a, b, EdgeKind::Associative, billionths(0.155)).unwrap();
    db.link(a, b, EdgeKind::Temporal, billionths(0.01)).unwrap();
    assert_eq!(phase5_pruning(&mut db), 1);
    let edges = db.storage().get_edges_for(a);
    assert_eq!(edges.len(), 2);
    assert_eq!(edges[0].weight, billionths(0.95));
    assert_eq!(edges[1].weight, billionths(0.01));
}

#[test]
fn what_is_negligible_is_forgotten() {
    let day = 86_400;
    let now = 1_000 * day;
    let mut db = test_db();
    let root = add(&mut db, "Root", 0, vec![]);
    let mut stale = Fragment::new("Stale".to_string(), 1);
    stale.created_at = now - 61 * day;
    stale.relevance_score = billionths(0.015);
    let stale_id = db.insert(stale, Some(root)).unwrap();
    let leaf = add(&mut db, "Leaf", 2, vec![]);
    db.link(stale_id, leaf, EdgeKind::Hierarchical, ONE).unwrap();
    let mut accessed = Fragment::new("Accessed".to_string(), 1);
    accessed.created_at = now - 61 * day;
    accessed.relevance_score = billionths(0.015);
    accessed.access_count = 1;
    let accessed_id = db.insert(accessed, Some(root)).unwrap();
    let mut ancient = Fragment::new("Ancient".to_string(), 1);
    ancient.created_at = now - 91 * day;
    ancient.relevance_score = billionths(0.005);
    ancient.access_count = 5;
    let ancient_id = db.insert(ancient, Some(root)).unwrap();

    assert_eq!(phase6_fragment_pruning(&mut db, now).unwrap(), 2);
    assert!(!db.storage().contains_fragment(stale_id));
    assert!(!db.storage().contains_fragment(ancient_id));
    assert!(db.storage().contains_fragment(accessed_id));
    assert_eq!(db.parent(leaf).unwrap().id, root);
}

#[test]
fn children_of_a_forgotten_root_are_orphaned() {
    let mut db = test_db();
    let root = add(&mut db, "Root", 0, vec![]);
    let child = add_below(&mut db, root, "Child", vec![]);
    reparent_and_prune(&mut db, root).unwrap();
    assert!(db.parent(child).is_none());
    assert!(db.storage().contains_fragment(child));
}

#[test]
fn the_end_of_a_cycle_is_counted() {
    let mut db = test_db();
    let a = add(&mut db, "A", 0, vec![]);
    let b = add(&mut db, "B", 0, vec![]);
    db.link(a, b, EdgeKind::Associative, billionths(0.1)).unwrap();
    let mut stats = ConsolidationStats::default();
    stats.sessions_digested = 3;
    let stats = forget(&mut db, stats, now_unix()).unwrap();
    assert_eq!(stats.sessions_digested, 3);
    assert_eq!(stats.edges_pruned, 1);
    assert_eq!(stats.fragments_pruned, 0);
}

#[test]
fn roots_with_new_children_get_new_summaries() {
    let mut db = test_db();
    let mut root = Fragment::new("Old overview".to_string(), 0).with_summary("S".to_string());
    root.last_accessed = 100;
    let id = db.insert(root, None).unwrap();
    let root = db.storage().get_fragment(id).unwrap();
    assert!(resummary_prompt(&db, &root).is_none());
    let mut child = Fragment::new("News".to_string(), 1);
    child.created_at = 101;
    db.insert(child, Some(id)).unwrap();
    let p = resummary_prompt(&db, &root).unwrap();
    assert!(p.contains("Current content: \"Old overview\""));
    assert!(p.contains("Children:\n- News\n\n"));
    assert!(!accept_resummary(&mut db, &root, "  ", None));
    assert!(accept_resummary(&mut db, &root, " New overview ", None));
    let after = db.storage().get_fragment(id).unwrap();
    assert_eq!(after.content, "New overview");
    assert_eq!(after.summary, "S");
}

// ---- contradictions ----

fn siblings(n: usize) -> (LoreDb, Vec<FragmentId>) {
    let mut db = test_db();
    let root = add(&mut db, "Root", 0, vec![]);
    let mut ids = Vec::new();
    for i in 0..n {
        let mut f = Fragment::new(format!("Statement {}", i), 1);
        f.created_at = 100 + i as i64;
        ids.push(db.insert(f, Some(root)).unwrap());
    }
    (db, ids)
}

#[test]
fn one_pair_is_asked_for_yes_or_no() {
    let (mut db, ids) = siblings(2);
    let batch = collect_candidates(&db);
    assert_eq!(batch.len(), 1);
    let p = contradiction_prompt(&batch[0]);
    assert!(p.contains("Statement A: Statement 0\n\nStatement B: Statement 1"));
    assert_eq!(check_contradiction_batch(&mut db, &batch, Some("No.")).unwrap(), 0);
    assert_eq!(check_contradiction_batch(&mut db, &batch, None).unwrap(), 0);
    assert_eq!(check_contradiction_batch(&mut db, &batch, Some("  YES, they do")).unwrap(), 1);
    assert_eq!(db.storage().get_fragment(ids[0]).unwrap().superseded_by, Some(ids[1]));
}

#[test]
fn many_pairs_are_asked_for_numbers() {
    let (mut db, ids) = siblings(3);
    let batch = collect_candidates(&db);
    assert_eq!(batch.len(), 3);
    let p = batch_prompt(&batch);
    assert!(p.contains("Pair 3:\n  A: Statement 1\n  B: Statement 2\n\n"));
    assert_eq!(read_answer(3, " [3, 9, 0] "), vec![2]);
    assert!(read_answer(3, "none").is_empty());
    assert_eq!(check_contradiction_batch(&mut db, &batch, Some("[3]")).unwrap(), 1);
    assert_eq!(db.storage().get_fragment(ids[1]).unwrap().superseded_by, Some(ids[2]));
    assert!(db.storage().get_fragment(ids[0]).unwrap().superseded_by.is_none());
}

#[test]
fn dissimilar_siblings_cannot_contradict() {
    let mut db = test_db();
    let root = add(&mut db, "Root", 0, vec![]);
    add_below(&mut db, root, "X", vec![1, 0]);
    add_below(&mut db, root, "Y", vec![0, 1]);
    assert!(collect_candidates(&db).is_empty());
    add_below(&mut db, root, "Z", vec![]);
    assert_eq!(collect_candidates(&db).len(), 2);
}

#[test]
fn stamps_are_drawn() {
    let s = Stamp::new();
    assert!(s.now > 1_600_000_000);
    assert_ne!(s.id, Stamp::new().id);
}

#[test]
fn a_cycle_keeps_roots_and_what_is_relevant() {
    let mut db = test_db();
    let long_ago = now_unix() - 400 * 86_400;
    let mut root = Fragment::new("Root".to_string(), 0);
    root.created_at = long_ago;
    root.last_reinforced = long_ago;
    root.importance = 0;
    let mut middle = Fragment::new("Middle".to_string(), 1);
    middle.created_at = long_ago;
    middle.last_reinforced = long_ago;
    middle.importance = 0;
    middle.decay_rate = 50_000_000;
    let mut leaf = Fragment::new("Leaf".to_string(), 2);
    leaf.importance = ONE;
    let (root_id, middle_id, leaf_id) = (root.id, middle.id, leaf.id);
    db.insert(root, None).unwrap();
    db.insert(middle, Some(root_id)).unwrap();
    db.insert(leaf, Some(middle_id)).unwrap();
    let stats =
        run_consolidation(&mut db, &ConsolidationConfig::default(), now_unix()).unwrap();
    assert_eq!(stats.fragments_pruned, 1);
    assert_eq!(db.storage().get_fragment(root_id).unwrap().content, "Root");
    assert!(db.storage().get_fragment(middle_id).is_none());
    assert_eq!(db.parent(leaf_id).unwrap().id, root_id);
}

#[test]
fn storing_only_adds() {
    let mut db = test_db();
    let known = Fragment::new("Known".to_string(), 0);
    let known_id = known.id;
    db.insert(known, None).unwrap();
    let result = make_result(vec![strings(&["Root", "Leaf"])]);
    assert_eq!(store_extraction_result(&mut db, &result, Some("session")), Ok(3));
    assert_eq!(db.storage().fragment_count(), 4);
    let again = db.storage().get_fragment(known_id).unwrap();
    assert_eq!(again.content, "Known");
    assert_eq!(again.access_count, 0);
    assert_eq!(again.relevance_score, ONE);
}

#[test]
fn what_tools_give_back_is_kept() {
    let line =
        r#"{"message":{"role":"user","content":[{"type":"tool_result","content":"exit 0"}]}}"#;
    let turn = parse_jsonl_line(line).unwrap();
    assert_eq!(turn.role, "user");
    assert_eq!(turn.text, "exit 0");
    let line = r#"{"message":{"role":"user","content":[{"type":"text","text":"Look:"},{"type":"tool_result","content":[{"type":"text","text":"a"},{"type":"image"},{"type":"text","text":"b"}]}]}}"#;
    assert_eq!(parse_jsonl_line(line).unwrap().text, "Look:\n\na\n\nb");
    for content in ["\" \"", "[{\"type\":\"image\"}]", "7"] {
        let line = format!(
            "{{\"message\":{{\"role\":\"user\",\"content\":[{{\"type\":\"tool_result\",\"content\":{}}}]}}}}",
            content
        );
        assert!(parse_jsonl_line(&line).is_none(), "{}", content);
    }
}
