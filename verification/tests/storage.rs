//! The graph: fragments, edges, reading positions and waiting turns.

use lore::edge::{Edge, EdgeId, EdgeKind};
use lore::embedding::{bytes_to_embedding, embedding_to_bytes};
use lore::fragment::{now_unix, Fragment, FragmentId, Metadata};
use lore::rows::{edge_to_row, fragment_to_row, row_to_edge, row_to_fragment};
use lore::storage::{Storage, StorageError};

fn components(v: &[f32]) -> Vec<i32> {
    v.iter().map(|x| (x * 1e8).round() as i32).collect()
}

fn fragment(content: &str, summary: &str, depth: u32) -> Fragment {
    Fragment::new(content.to_string(), depth).with_summary(summary.to_string())
}

fn edge(source: FragmentId, target: FragmentId, kind: EdgeKind, weight: i64) -> Edge {
    Edge { id: EdgeId::new(), source, target, kind, weight, content: None, created_at: now_unix() }
}

fn turns(list: &[(&str, &str)]) -> Vec<(String, String)> {
    list.iter().map(|(r, t)| (r.to_string(), t.to_string())).collect()
}

#[test]
fn test_embedding_roundtrip() {
    let original = components(&[1.0f32, -0.5, 0.0, 0.75, -1.25]);
    let bytes = embedding_to_bytes(&original);
    let recovered = bytes_to_embedding(&bytes);
    assert_eq!(original, recovered);
}

#[test]
fn test_fragment_crud() {
    let mut storage = Storage::open_memory().unwrap();

    let mut frag = fragment("Rust async programming", "Async Rust", 0);
    frag.embedding = components(&[1.0, 2.0, 3.0]);

    storage.insert_fragment(&frag).unwrap();

    let loaded = storage.get_fragment(frag.id).unwrap();
    assert_eq!(loaded.content, "Rust async programming");
    assert_eq!(loaded.summary, "Async Rust");
    assert_eq!(loaded.depth, 0);
    assert_eq!(loaded.embedding, components(&[1.0, 2.0, 3.0]));
}

#[test]
fn test_edge_crud() {
    let mut storage = Storage::open_memory().unwrap();

    let parent = fragment("Topic", "Topic", 0);
    let child = fragment("Concept", "Concept", 1);

    storage.insert_fragment(&parent).unwrap();
    storage.insert_fragment(&child).unwrap();

    let e = edge(parent.id, child.id, EdgeKind::Hierarchical, 1_000_000_000);
    storage.insert_edge(&e).unwrap();

    let children = storage.get_children(parent.id);
    assert_eq!(children.len(), 1);
    assert_eq!(children[0].id, child.id);

    let loaded_parent = storage.get_parent(child.id).unwrap();
    assert_eq!(loaded_parent.id, parent.id);
}

#[test]
fn test_update_fragment_content() {
    let mut storage = Storage::open_memory().unwrap();

    let mut frag = fragment("Original content", "Original summary", 0);
    frag.embedding = components(&[1.0, 2.0, 3.0]);
    storage.insert_fragment(&frag).unwrap();

    let new_emb = components(&[4.0, 5.0, 6.0]);
    storage.update_fragment_content(
        frag.id,
        "Updated content",
        "Updated summary",
        Some(&new_emb),
    );

    let loaded = storage.get_fragment(frag.id).unwrap();
    assert_eq!(loaded.content, "Updated content");
    assert_eq!(loaded.summary, "Updated summary");
    assert_eq!(loaded.embedding, components(&[4.0, 5.0, 6.0]));

    storage.update_fragment_content(frag.id, "Content v3", "Summary v3", None);

    let loaded = storage.get_fragment(frag.id).unwrap();
    assert_eq!(loaded.content, "Content v3");
    assert_eq!(loaded.summary, "Summary v3");
    assert_eq!(loaded.embedding, components(&[4.0, 5.0, 6.0]));
}

#[test]
fn test_delete_edge_between() {
    let mut storage = Storage::open_memory().unwrap();

    let parent = fragment("Topic", "Topic", 0);
    let child = fragment("Concept", "Concept", 1);
    storage.insert_fragment(&parent).unwrap();
    storage.insert_fragment(&child).unwrap();

    let e = edge(parent.id, child.id, EdgeKind::Hierarchical, 1_000_000_000);
    storage.insert_edge(&e).unwrap();

    assert_eq!(storage.get_children(parent.id).len(), 1);

    storage.delete_edge_between(parent.id, child.id, EdgeKind::Hierarchical);

    assert_eq!(storage.get_children(parent.id).len(), 0);
}

#[test]
fn test_watermark() {
    let mut storage = Storage::open_memory().unwrap();

    assert!(storage.get_watermark("/some/file.jsonl").is_none());

    storage.set_watermark("/some/file.jsonl", 1024);
    let (offset, _) = storage.get_watermark("/some/file.jsonl").unwrap();
    assert_eq!(offset, 1024);

    storage.set_watermark("/some/file.jsonl", 2048);
    let (offset, _) = storage.get_watermark("/some/file.jsonl").unwrap();
    assert_eq!(offset, 2048);
}

#[test]
fn test_stage_and_retrieve_turns() {
    let mut storage = Storage::open_memory().unwrap();

    let list = turns(&[
        ("user", "Hello"),
        ("assistant", "Hi there"),
        ("user", "How does X work?"),
    ]);
    let count = storage.stage_turns("/path/to/session.jsonl", &list).unwrap();
    assert_eq!(count, 3);

    let retrieved = storage.get_staged_turns("/path/to/session.jsonl");
    assert_eq!(retrieved.len(), 3);
    assert_eq!(retrieved[0].role, "user");
    assert_eq!(retrieved[0].text, "Hello");
    assert_eq!(retrieved[1].role, "assistant");
    assert_eq!(retrieved[2].text, "How does X work?");
}

#[test]
fn test_staged_sessions_idle_threshold() {
    let mut storage = Storage::open_memory().unwrap();
    let now = now_unix();

    storage.stage_turns_at("/idle.jsonl", &turns(&[("user", "old")]), now - 600).unwrap();
    storage.stage_turns_at("/active.jsonl", &turns(&[("user", "fresh")]), now).unwrap();

    let sessions = storage.get_staged_sessions(300, now);
    assert_eq!(sessions.len(), 1);
    assert_eq!(sessions[0].file_path, "/idle.jsonl");
    assert_eq!(sessions[0].turn_count, 1);
}

#[test]
fn test_delete_staged_turns() {
    let mut storage = Storage::open_memory().unwrap();

    storage
        .stage_turns("/session.jsonl", &turns(&[("user", "hello"), ("assistant", "hi")]))
        .unwrap();
    assert_eq!(storage.get_staged_turns("/session.jsonl").len(), 2);

    let deleted = storage.delete_staged_turns("/session.jsonl");
    assert_eq!(deleted, 2);
    assert_eq!(storage.get_staged_turns("/session.jsonl").len(), 0);
}

#[test]
fn taken_identifiers_are_refused() {
    let mut storage = Storage::open_memory().unwrap();
    let f = fragment("A", "", 0);
    storage.insert_fragment(&f).unwrap();
    assert_eq!(storage.insert_fragment(&f), Err(StorageError::DuplicateId));
    assert_eq!(storage.fragment_count(), 1);

    let g = fragment("B", "", 0);
    storage.insert_fragment(&g).unwrap();
    let e = edge(f.id, g.id, EdgeKind::Associative, 1);
    storage.insert_edge(&e).unwrap();
    assert_eq!(storage.insert_edge(&e), Err(StorageError::DuplicateId));
}

#[test]
fn references_to_nothing_are_refused() {
    let mut storage = Storage::open_memory().unwrap();
    let f = fragment("A", "", 0);
    storage.insert_fragment(&f).unwrap();
    let e = edge(f.id, FragmentId::new(), EdgeKind::Associative, 1);
    assert_eq!(storage.insert_edge(&e), Err(StorageError::BrokenReference));

    let mut g = fragment("B", "", 0);
    g.superseded_by = Some(FragmentId::new());
    assert_eq!(storage.insert_fragment(&g), Err(StorageError::BrokenReference));

    assert_eq!(
        storage.supersede_fragment(f.id, FragmentId::new()),
        Err(StorageError::BrokenReference)
    );
}

#[test]
fn what_supersedes_another_hands_it_on_when_removed() {
    let mut storage = Storage::open_memory().unwrap();
    let old = fragment("Old", "", 0);
    let new = fragment("New", "", 0);
    let newest = fragment("Newest", "", 0);
    for f in [&old, &new, &newest] {
        storage.insert_fragment(f).unwrap();
    }
    storage.supersede_fragment(old.id, new.id).unwrap();
    storage.supersede_fragment(new.id, newest.id).unwrap();
    storage.insert_edge(&edge(new.id, old.id, EdgeKind::Supersedes, 1)).unwrap();
    storage.insert_edge(&edge(newest.id, old.id, EdgeKind::Associative, 1)).unwrap();
    assert_eq!(storage.delete_fragment(new.id), Ok(()));
    assert!(storage.get_fragment(new.id).is_none());
    assert!(storage.get_edges_for(new.id).is_empty());
    assert_eq!(storage.get_edges_for(old.id).len(), 1);
    assert_eq!(storage.get_fragment(old.id).unwrap().superseded_by, Some(newest.id));
    assert_eq!(storage.delete_fragment(newest.id), Ok(()));
    assert_eq!(storage.get_fragment(old.id).unwrap().superseded_by, None);
    assert_eq!(storage.delete_fragment(newest.id), Ok(()));
    assert_eq!(storage.fragment_count(), 1);
}

#[test]
fn turns_that_cannot_be_numbered_are_refused() {
    let mut storage =
        Storage::restore(Vec::new(), Vec::new(), Vec::new(), Vec::new(), i64::MAX - 1).unwrap();
    assert_eq!(
        storage.stage_turns_at("/a.jsonl", &turns(&[("user", "1"), ("user", "2")]), 0),
        Err(StorageError::Full)
    );
    assert_eq!(storage.get_staged_turns("/a.jsonl").len(), 0);
    assert_eq!(storage.stage_turns_at("/a.jsonl", &turns(&[("user", "1")]), 0), Ok(1));
}

#[test]
fn waiting_turns_of_one_log_do_not_mix_with_others() {
    let mut storage = Storage::open_memory().unwrap();
    storage.stage_turns_at("/a.jsonl", &turns(&[("user", "1"), ("user", "2")]), 10).unwrap();
    storage.stage_turns_at("/b.jsonl", &turns(&[("user", "3")]), 20).unwrap();
    storage.stage_turns_at("/a.jsonl", &turns(&[("user", "4")]), 30).unwrap();
    let a: Vec<String> =
        storage.get_staged_turns("/a.jsonl").into_iter().map(|t| t.text).collect();
    assert_eq!(a, vec!["1", "2", "4"]);
    let sessions = storage.get_staged_sessions(0, 100);
    assert_eq!(sessions.len(), 2);
    assert_eq!(sessions[0].file_path, "/b.jsonl");
    assert_eq!(sessions[1].file_path, "/a.jsonl");
    assert_eq!(sessions[1].turn_count, 3);
    assert_eq!(sessions[1].last_staged, 30);
    assert_eq!(storage.delete_staged_turns("/a.jsonl"), 3);
    assert_eq!(storage.get_staged_turns("/b.jsonl").len(), 1);
}

#[test]
fn an_access_can_be_only_counted() {
    let mut storage = Storage::open_memory().unwrap();
    let mut f = fragment("A", "", 0);
    f.relevance_score = 1;
    f.last_reinforced = 5;
    storage.insert_fragment(&f).unwrap();
    storage.touch_fragment_at(f.id, 77);
    let loaded = storage.get_fragment(f.id).unwrap();
    assert_eq!(loaded.access_count, 1);
    assert_eq!(loaded.last_accessed, 77);
    assert_eq!(loaded.relevance_score, 1);
    assert_eq!(loaded.last_reinforced, 5);
}

#[test]
fn edge_weights_can_be_set() {
    let mut storage = Storage::open_memory().unwrap();
    let a = fragment("A", "", 0);
    let b = fragment("B", "", 0);
    storage.insert_fragment(&a).unwrap();
    storage.insert_fragment(&b).unwrap();
    let e = edge(a.id, b.id, EdgeKind::Associative, 500_000_000);
    storage.insert_edge(&e).unwrap();
    storage.update_edge_weight(e.id, 250_000_000);
    assert_eq!(storage.get_edges_for(b.id)[0].weight, 250_000_000);
    assert_eq!(storage.get_associations(a.id)[0].id, b.id);
    assert_eq!(storage.get_associations(b.id)[0].id, a.id);
}

#[test]
fn rows_give_fragments_back() {
    let mut f = fragment("Content with \"quotes\"", "Summary", 3);
    f.embedding = components(&[0.25, -0.5]);
    f.source_session = Some("session".to_string());
    f.superseded_by = Some(FragmentId::new());
    f.metadata.insert("type".to_string(), "reflection\nnote".to_string());
    f.access_count = 7;
    let row = fragment_to_row(&f);
    assert_eq!(row.id, f.id.as_str());
    assert_ne!(row.metadata.as_deref(), Some("{}"));
    let back = row_to_fragment(&row).unwrap();
    assert_eq!(back.id, f.id);
    assert_eq!(back.content, f.content);
    assert_eq!(back.summary, f.summary);
    assert_eq!(back.depth, 3);
    assert_eq!(back.embedding, f.embedding);
    assert_eq!(back.source_session, f.source_session);
    assert_eq!(back.superseded_by, f.superseded_by);
    assert_eq!(back.metadata.get("type").unwrap(), "reflection\nnote");
    assert_eq!(back.access_count, 7);
    assert_eq!(back.decay_rate, f.decay_rate);
}

#[test]
fn rows_without_values_get_defaults() {
    let mut row = fragment_to_row(&fragment("A", "", 0));
    assert!(row.embedding.is_none());
    row.superseded_by = Some("no identifier".to_string());
    row.metadata = Some("no json".to_string());
    row.importance = None;
    row.relevance_score = None;
    row.decay_rate = None;
    row.last_reinforced = None;
    row.created_at = 123;
    let f = row_to_fragment(&row).unwrap();
    assert!(f.superseded_by.is_none());
    assert!(f.metadata.is_empty());
    assert_eq!(f.importance, 500_000_000);
    assert_eq!(f.relevance_score, 1_000_000_000);
    assert_eq!(f.decay_rate, 35_000_000);
    assert_eq!(f.last_reinforced, 123);
    row.id = "no identifier".to_string();
    assert_eq!(row_to_fragment(&row).unwrap_err().column, 0);
}

#[test]
fn rows_give_edges_back() {
    let mut e = edge(FragmentId::new(), FragmentId::new(), EdgeKind::Temporal, 123);
    e.content = Some("after".to_string());
    let mut row = edge_to_row(&e);
    assert_eq!(row.kind, "temporal");
    let back = row_to_edge(&row).unwrap();
    assert_eq!(back.id, e.id);
    assert_eq!(back.source, e.source);
    assert_eq!(back.target, e.target);
    assert_eq!(back.kind, EdgeKind::Temporal);
    assert_eq!(back.weight, 123);
    assert_eq!(back.content.as_deref(), Some("after"));

    row.kind = "unheard of".to_string();
    assert_eq!(row_to_edge(&row).unwrap().kind, EdgeKind::Associative);
    row.target = "x".to_string();
    assert_eq!(row_to_edge(&row).unwrap_err().column, 2);
    row.source = "x".to_string();
    assert_eq!(row_to_edge(&row).unwrap_err().column, 1);
    row.id = "x".to_string();
    assert_eq!(row_to_edge(&row).unwrap_err().column, 0);
}

#[test]
fn a_graph_is_restored_from_its_parts() {
    let mut storage = Storage::open_memory().unwrap();
    let a = fragment("A", "", 0);
    let b = fragment("B", "", 1);
    storage.insert_fragment(&a).unwrap();
    storage.insert_fragment(&b).unwrap();
    storage.insert_edge(&edge(a.id, b.id, EdgeKind::Hierarchical, 1)).unwrap();
    storage.set_watermark_at("/a.jsonl", 12, 34);
    storage.stage_turns_at("/a.jsonl", &turns(&[("user", "x")]), 56).unwrap();

    let fragments: Vec<Fragment> = storage.fragments().to_vec();
    let edges: Vec<Edge> = storage
        .edges()
        .iter()
        .map(|e| row_to_edge(&edge_to_row(e)).unwrap())
        .collect();
    let again = Storage::restore(
        fragments,
        edges,
        storage.watermarks(),
        storage.waiting_turns(),
        storage.next_turn(),
    )
    .unwrap();
    assert_eq!(again.fragment_count(), 2);
    assert_eq!(again.get_children(a.id)[0].id, b.id);
    assert_eq!(again.get_watermark("/a.jsonl"), Some((12, 34)));
    assert_eq!(again.get_staged_turns("/a.jsonl")[0].text, "x");
}

#[test]
fn parts_that_do_not_fit_are_not_restored() {
    let a = fragment("A", "", 0);
    let twice = vec![a.clone(), a.clone()];
    assert!(Storage::restore(twice, Vec::new(), Vec::new(), Vec::new(), 1).is_none());
    let dangling = vec![edge(a.id, FragmentId::new(), EdgeKind::Temporal, 1)];
    assert!(Storage::restore(vec![a.clone()], dangling, Vec::new(), Vec::new(), 1).is_none());
    assert!(Storage::restore(vec![a], Vec::new(), Vec::new(), Vec::new(), 1).is_some());
}

#[test]
fn fragments_are_found_by_the_beginning_of_their_identifier() {
    let mut storage = Storage::open_memory().unwrap();
    let a = fragment("a", "a", 0);
    let b = fragment("b", "b", 1);
    storage.insert_fragment(&a).unwrap();
    storage.insert_fragment(&b).unwrap();
    let found = storage.get_fragments_by_prefix(&a.id.as_str());
    assert_eq!(found.len(), 1);
    assert_eq!(found[0].id, a.id);
    assert_eq!(storage.get_fragments_by_prefix("").len(), 2);
    assert!(storage.get_fragments_by_prefix("x").is_empty());
    assert!(storage.get_fragments_by_prefix(&a.id.as_str()[..35]).iter().any(|f| f.id == a.id));
}

#[test]
fn a_note_takes_the_place_of_one_under_its_key() {
    let mut f = Fragment::new("Noted".to_string(), 0);
    for (k, v) in [("a", "1"), ("b", "2"), ("a", "3")] {
        f.metadata.insert(k.to_string(), v.to_string());
    }
    let entries = f.metadata.to_entries();
    assert_eq!(entries.len(), 2);
    let back = row_to_fragment(&fragment_to_row(&f)).unwrap();
    assert_eq!(back.metadata.get("a").as_deref(), Some("3"));
    assert_eq!(back.metadata.get("b").as_deref(), Some("2"));
    let twice = vec![("k".to_string(), "x".to_string()), ("k".to_string(), "y".to_string())];
    let notes = Metadata::from_entries(twice);
    assert_eq!(notes.to_entries(), vec![("k".to_string(), "y".to_string())]);
}
