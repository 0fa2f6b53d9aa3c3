//! The query engine.

use lore::changes::Stamp;
use lore::edge::{Edge, EdgeId, EdgeKind};
use lore::fragment::{now_unix, Fragment, FragmentId};
use lore::query::{match_text, LoreDb};
use lore::storage::{Storage, StorageError};

fn fragment(content: &str, summary: &str, depth: u32) -> Fragment {
    Fragment::new(content.to_string(), depth).with_summary(summary.to_string())
}

fn child_edge(source: FragmentId, target: FragmentId) -> Edge {
    Edge {
        id: EdgeId::new(),
        source,
        target,
        kind: EdgeKind::Hierarchical,
        weight: 1_000_000_000,
        content: None,
        created_at: now_unix(),
    }
}

fn make_test_db() -> LoreDb {
    let storage = Storage::open_memory().unwrap();
    let mut db = LoreDb::new_without_embeddings(storage);

    let mut topic = fragment("Rust programming language", "Rust", 0);
    topic.embedding = vec![10_000_000; 384];
    db.storage_mut().insert_fragment(&topic).unwrap();

    let mut concept = fragment("Rust async programming with tokio", "Async Rust", 1);
    concept.embedding = vec![20_000_000; 384];
    db.storage_mut().insert_fragment(&concept).unwrap();

    db.storage_mut().insert_edge(&child_edge(topic.id, concept.id)).unwrap();

    let mut fact = fragment("Tokio uses a work-stealing scheduler", "Work-stealing scheduler", 2);
    fact.embedding = vec![30_000_000; 384];
    db.storage_mut().insert_fragment(&fact).unwrap();

    db.storage_mut().insert_edge(&child_edge(concept.id, fact.id)).unwrap();

    db
}

#[test]
fn query_test_list_topics() {
    let db = make_test_db();
    let topics = db.list_topics();
    assert_eq!(topics.len(), 1);
    assert_eq!(topics[0].summary, "Rust");
}

#[test]
fn test_children_and_parent() {
    let db = make_test_db();
    let topics = db.list_topics();
    let topic = &topics[0];

    let children = db.children(topic.id);
    assert_eq!(children.len(), 1);
    assert_eq!(children[0].summary, "Async Rust");

    let parent = db.parent(children[0].id).unwrap();
    assert_eq!(parent.id, topic.id);
}

#[test]
fn test_subtree() {
    let db = make_test_db();
    let topics = db.list_topics();
    let tree = db.subtree(topics[0].id, 3).unwrap();

    assert_eq!(tree.fragment.summary, "Rust");
    assert_eq!(tree.children.len(), 1);
    assert_eq!(tree.children[0].fragment.summary, "Async Rust");
    assert_eq!(tree.children[0].children.len(), 1);
    assert_eq!(
        tree.children[0].children[0].fragment.summary,
        "Work-stealing scheduler"
    );
}

#[test]
fn test_text_fallback_query() {
    let mut db = make_test_db();
    let results = db.query("rust", None, 0, 10);
    assert_eq!(results.len(), 1);
    assert_eq!(results[0].fragment.summary, "Rust");
}

#[test]
fn test_supersede() {
    let mut db = make_test_db();

    let old = fragment("Old fact", "Old", 2);
    db.storage_mut().insert_fragment(&old).unwrap();

    let new = fragment("New fact", "New", 2);
    db.storage_mut().insert_fragment(&new).unwrap();

    db.supersede(old.id, new.id).unwrap();

    let loaded = db.storage().get_fragment(old.id).unwrap();
    assert_eq!(loaded.superseded_by, Some(new.id));
}

#[test]
fn test_prune() {
    let mut db = make_test_db();
    let topics = db.list_topics();
    assert_eq!(topics.len(), 1);

    let children = db.children(topics[0].id);

    let grandchildren = db.children(children[0].id);
    db.prune(grandchildren[0].id).unwrap();

    let remaining = db.children(children[0].id);
    assert_eq!(remaining.len(), 0);
}

#[test]
fn test_update_fragment() {
    let mut db = make_test_db();
    let topics = db.list_topics();
    let topic_id = topics[0].id;

    db.update(topic_id, "Updated Rust content", "Updated Rust", None);

    let loaded = db.storage().get_fragment(topic_id).unwrap();
    assert_eq!(loaded.content, "Updated Rust content");
    assert_eq!(loaded.summary, "Updated Rust");
}

#[test]
fn test_insert_with_parent() {
    let mut db = make_test_db();
    let topics = db.list_topics();

    let new_concept = fragment("Rust ownership system", "Ownership", 1);
    let new_id = db.insert(new_concept, Some(topics[0].id)).unwrap();

    let children = db.children(topics[0].id);
    assert_eq!(children.len(), 2);
    assert!(children.iter().any(|c| c.id == new_id));
}

#[test]
fn text_scores_are_exact() {
    assert_eq!(match_text("rust", "about rust", ""), Some(800_000_000));
    assert_eq!(match_text("rust", "", "rust"), Some(800_000_000));
    // One word of two: 0.3 + 0.4 / 2
    assert_eq!(match_text("rust go", "about go", ""), Some(500_000_000));
    assert_eq!(match_text("rust", "python", "python"), None);
    // The empty text stands everywhere.
    assert_eq!(match_text("", "python", ""), Some(800_000_000));
}

#[test]
fn a_query_blends_match_and_relevance() {
    let mut db = make_test_db();
    // 0.7 * 0.8 + 0.3 * 1.0
    assert_eq!(db.query("RUST", None, 0, 10)[0].score, 860_000_000);
}

#[test]
fn a_query_by_embedding_ranks_by_similarity() {
    let mut db = LoreDb::new_without_embeddings(Storage::open_memory().unwrap());
    let mut near = fragment("near", "", 0);
    near.embedding = vec![100_000_000, 0];
    let mut far = fragment("far", "", 0);
    far.embedding = vec![0, 100_000_000];
    let bare = fragment("bare", "", 0);
    db.storage_mut().insert_fragment(&far).unwrap();
    db.storage_mut().insert_fragment(&near).unwrap();
    db.storage_mut().insert_fragment(&bare).unwrap();
    let query = vec![50_000_000, 0];
    let hits = db.query("", Some(&query), 0, 10);
    assert_eq!(hits.len(), 2);
    assert_eq!(hits[0].fragment.content, "near");
    assert_eq!(hits[0].score, 1_000_000_000);
    assert_eq!(hits[1].score, 300_000_000);
    assert_eq!(db.query("", Some(&query), 0, 1).len(), 1);
    assert_eq!(db.search_semantic(&query, 10).len(), 2);
}

#[test]
fn forgotten_fragments_are_not_found() {
    let mut db = LoreDb::new_without_embeddings(Storage::open_memory().unwrap());
    let mut f = fragment("rust", "", 0);
    f.relevance_score = 50_000_000;
    db.storage_mut().insert_fragment(&f).unwrap();
    assert!(db.query("rust", None, 0, 10).is_empty());
    let mut g = fragment("rust", "", 0);
    g.relevance_score = 50_000_001;
    db.storage_mut().insert_fragment(&g).unwrap();
    assert_eq!(db.query("rust", None, 0, 10).len(), 1);
}

#[test]
fn exploring_gives_the_trees_of_three_roots() {
    let mut db = make_test_db();
    for i in 0..4 {
        db.insert(fragment(&format!("Rust topic {}", i), "", 0), None).unwrap();
    }
    let trees = db.explore("rust", None, 1);
    assert_eq!(trees.len(), 3);
    assert_eq!(trees[0].fragment.content, "Rust programming language");
    assert_eq!(trees[0].children.len(), 1);
    assert_eq!(trees[0].fragment.access_count, 1);
}

#[test]
fn roots_can_be_limited() {
    let mut db = make_test_db();
    db.insert(fragment("Another", "", 0), None).unwrap();
    assert_eq!(db.list_roots(Some(1)).len(), 1);
    assert_eq!(db.list_roots(Some(5)).len(), 2);
    assert_eq!(db.list_roots(None).len(), 2);
}

#[test]
fn a_fragment_stays_where_its_edge_is_refused() {
    let mut db = make_test_db();
    let f = fragment("Orphan", "", 1);
    let id = f.id;
    let stamp = Stamp::new();
    assert_eq!(
        db.insert_stamped(f, Some(FragmentId::new()), stamp),
        Err(StorageError::BrokenReference)
    );
    assert!(db.storage().contains_fragment(id));
}

#[test]
fn superseding_adds_an_edge() {
    let mut db = make_test_db();
    let a = db.insert(fragment("Old", "", 1), None).unwrap();
    let b = db.insert(fragment("New", "", 1), None).unwrap();
    db.supersede(a, b).unwrap();
    let edges = db.storage().get_edges_for(a);
    assert_eq!(edges.len(), 1);
    assert_eq!(edges[0].kind, EdgeKind::Supersedes);
    assert_eq!(edges[0].source, b);
    assert_eq!(db.supersede(a, FragmentId::new()), Err(StorageError::BrokenReference));
}

#[test]
fn associations_lead_both_ways() {
    let mut db = make_test_db();
    let a = db.insert(fragment("A", "", 1), None).unwrap();
    let b = db.insert(fragment("B", "", 1), None).unwrap();
    db.link_with_content(a, b, EdgeKind::Associative, 1, Some("why".to_string())).unwrap();
    assert_eq!(db.associations(a)[0].id, b);
    assert_eq!(db.associations(b)[0].id, a);
    assert_eq!(db.storage().get_edges_for(a)[0].content.as_deref(), Some("why"));
}

#[test]
fn identifiers_are_random_uuids() {
    let a = FragmentId::new();
    let b = FragmentId::new();
    assert_ne!(a, b);
    let text = a.as_str();
    assert_eq!(text.len(), 36);
    assert_eq!(text.as_bytes()[14], b'4');
    assert_eq!(FragmentId::parse(&text).unwrap(), a);
    assert_eq!(FragmentId::parse(&text.to_uppercase()).unwrap(), a);
    assert!(FragmentId::parse("nonsense").is_err());
    assert_eq!(
        FragmentId::parse("00000000-0000-0000-0000-0000000000ff").unwrap(),
        FragmentId(255)
    );
    assert_eq!(FragmentId(255).as_str(), "00000000-0000-0000-0000-0000000000ff");
}

#[test]
fn edge_kinds_have_names() {
    for (kind, name) in [
        (EdgeKind::Hierarchical, "hierarchical"),
        (EdgeKind::Associative, "associative"),
        (EdgeKind::Temporal, "temporal"),
        (EdgeKind::Supersedes, "supersedes"),
    ] {
        assert_eq!(kind.as_str(), name);
        assert_eq!(EdgeKind::parse(name), Some(kind));
    }
    assert_eq!(EdgeKind::parse("Temporal"), None);
    let id = EdgeId::new();
    assert_eq!(EdgeId::parse(&id.as_str()), Some(id));
    assert_eq!(EdgeId::parse("x"), None);
}
