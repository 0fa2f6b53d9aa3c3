//! Embedding-based routing, deep search and metadata.

use lore::deep::{find_links, spread_over_links, Link};
use lore::edge::{Edge, EdgeId, EdgeKind};
use lore::embedding::cosine_similarity;
use lore::fragment::{now_unix, Fragment, FragmentId};
use lore::query::LoreDb;
use lore::storage::Storage;

fn test_db() -> LoreDb {
    let storage = Storage::open_memory().unwrap();
    LoreDb::new_without_embeddings(storage)
}

fn billionths(x: f64) -> i64 {
    (x * 1e9).round() as i64
}

/// An embedding with its energy in a few dimensions; different topics point in
/// different directions.
fn make_embedding(topic_id: u32, noise: f32) -> Vec<i32> {
    let mut emb = vec![0.01_f32; 384];
    let start = (topic_id as usize * 30) % 384;
    for i in 0..30 {
        let idx = (start + i) % 384;
        emb[idx] = 1.0 + noise * (i as f32 / 30.0);
    }
    emb.iter().map(|x| (x * 1e8).round() as i32).collect()
}

fn insert_root(db: &mut LoreDb, content: &str, embedding: Vec<i32>) -> FragmentId {
    let mut frag = Fragment::new(content.to_string(), 0);
    frag.embedding = embedding;
    db.storage_mut().insert_fragment(&frag).unwrap();
    frag.id
}

fn insert_child(db: &mut LoreDb, content: &str, depth: u32, parent: FragmentId) -> FragmentId {
    let mut frag = Fragment::new(content.to_string(), depth);
    frag.embedding = make_embedding(2, 0.0);
    db.storage_mut().insert_fragment(&frag).unwrap();
    let edge = Edge {
        id: EdgeId::new(),
        source: parent,
        target: frag.id,
        kind: EdgeKind::Hierarchical,
        weight: billionths(1.0),
        content: None,
        created_at: now_unix(),
    };
    db.storage_mut().insert_edge(&edge).unwrap();
    frag.id
}

fn associate(db: &mut LoreDb, a: FragmentId, b: FragmentId, weight: f64) {
    db.link(a, b, EdgeKind::Associative, billionths(weight)).unwrap();
}

#[test]
fn find_best_root_by_embedding_returns_most_similar() {
    let mut db = test_db();

    let rust_emb = make_embedding(0, 0.0);
    let python_emb = make_embedding(5, 0.0);
    let _rust_id = insert_root(&mut db, "Rust programming", rust_emb.clone());
    let python_id = insert_root(&mut db, "Python programming", python_emb.clone());

    let query_emb = make_embedding(5, 0.1);
    let result = db.find_best_root_by_embedding(&query_emb);
    assert!(result.is_some());
    let (id, sim) = result.unwrap();
    assert_eq!(id, python_id, "Should match Python root (closest embedding)");
    assert!(sim > billionths(0.95), "Should have high similarity, got {}", sim);
}

#[test]
fn find_best_root_by_embedding_ignores_superseded() {
    let mut db = test_db();

    let emb = make_embedding(0, 0.0);
    let old_id = insert_root(&mut db, "Old knowledge", emb.clone());
    let new_id = insert_root(&mut db, "New knowledge", make_embedding(3, 0.0));

    db.supersede(old_id, new_id).unwrap();

    let result = db.find_best_root_by_embedding(&emb);
    assert!(result.is_some());
    let (id, _) = result.unwrap();
    assert_ne!(id, old_id, "Should not return superseded fragment");
}

#[test]
fn find_best_root_by_embedding_returns_none_for_empty_db() {
    let db = test_db();
    let emb = make_embedding(0, 0.0);
    assert!(db.find_best_root_by_embedding(&emb).is_none());
}

#[test]
fn max_root_similarity_returns_none_without_embedder() {
    let mut db = test_db();
    insert_root(&mut db, "Some root", make_embedding(0, 0.0));
    assert!(db.max_root_similarity(None).is_none());
}

#[test]
fn high_similarity_roots_would_trigger_high_fit_routing() {
    let mut db = test_db();
    let emb_a = make_embedding(0, 0.0);
    let _root_a = insert_root(&mut db, "Rust error handling patterns", emb_a);

    let emb_b = make_embedding(0, 0.1);
    let result = db.find_best_root_by_embedding(&emb_b);
    let (_, sim) = result.unwrap();

    assert!(sim > billionths(0.75), "got {}", sim);
}

#[test]
fn dissimilar_roots_would_trigger_low_fit_routing() {
    let mut db = test_db();
    let emb_a = make_embedding(0, 0.0);
    let _root_a = insert_root(&mut db, "Rust programming", emb_a);

    let emb_b = make_embedding(5, 0.0);
    let result = db.find_best_root_by_embedding(&emb_b);
    let (_, sim) = result.unwrap();

    assert!(sim < billionths(0.35), "got {}", sim);
}

#[test]
fn search_deep_discovers_fragments_via_associative_edges() {
    let mut db = test_db();

    let root_a = insert_root(&mut db, "Rust error handling patterns", make_embedding(0, 0.0));
    let _child_a = insert_child(&mut db, "Use thiserror for libraries", 1, root_a);

    let root_b = insert_root(&mut db, "Python exception handling", make_embedding(5, 0.0));
    let _child_b = insert_child(&mut db, "Use custom exception classes", 1, root_b);

    let root_c =
        insert_root(&mut db, "Go error handling with error wrapping", make_embedding(3, 0.0));

    associate(&mut db, root_a, root_c, 0.9);

    let regular = db.search_trees("rust error", None, 10);
    let regular_ids: Vec<FragmentId> = regular.iter().map(|sf| sf.fragment.id).collect();
    assert!(regular_ids.contains(&root_a), "Regular search should find Rust root");

    let deep = db.search_deep("rust error", None, 10);
    let deep_ids: Vec<FragmentId> = deep.iter().map(|sf| sf.fragment.id).collect();
    assert!(deep_ids.contains(&root_a), "Deep search should find Rust root");
    assert!(
        deep_ids.contains(&root_c),
        "Deep search should discover Go root via associative edge to Rust"
    );
    assert!(
        !deep_ids.contains(&root_b),
        "Python root should not be discovered (no associative link)"
    );
}

#[test]
fn search_deep_propagates_through_multi_hop_edges() {
    let mut db = test_db();

    let root_a = insert_root(&mut db, "Rust programming", make_embedding(0, 0.0));
    let root_b = insert_root(&mut db, "Systems programming concepts", make_embedding(3, 0.0));
    let root_c = insert_root(&mut db, "Memory management strategies", make_embedding(6, 0.0));

    associate(&mut db, root_a, root_b, 0.8);
    associate(&mut db, root_b, root_c, 0.8);

    let deep = db.search_deep("rust", None, 10);
    let deep_ids: Vec<FragmentId> = deep.iter().map(|sf| sf.fragment.id).collect();
    assert!(deep_ids.contains(&root_a), "Should find direct match");
    assert!(deep_ids.contains(&root_b), "Should discover 1-hop neighbor B");
    assert!(deep_ids.contains(&root_c), "Should discover 2-hop neighbor C");
}

#[test]
fn search_deep_with_no_associative_edges_returns_same_as_query() {
    let mut db = test_db();

    let root_a = insert_root(&mut db, "Rust programming language", make_embedding(0, 0.0));
    let _child_a = insert_child(&mut db, "Rust async programming", 1, root_a);

    let regular = db.search_trees("rust", None, 10);
    let deep = db.search_deep("rust", None, 10);

    assert_eq!(
        regular.len(),
        deep.len(),
        "Without associative edges, deep search should return same count as regular"
    );
}

#[test]
fn search_deep_reinforces_discovered_fragments() {
    let mut db = test_db();

    let root_a = insert_root(&mut db, "Rust programming", make_embedding(0, 0.0));
    let root_b = insert_root(&mut db, "Systems programming", make_embedding(3, 0.0));
    associate(&mut db, root_a, root_b, 0.9);

    let before = db.storage().get_fragment(root_b).unwrap();
    assert_eq!(before.access_count, 0);

    let _ = db.search_deep("rust", None, 10);

    let after = db.storage().get_fragment(root_b).unwrap();
    assert_eq!(after.access_count, 1);
}

#[test]
fn search_deep_deduplicates_by_tree() {
    let mut db = test_db();

    let root_a = insert_root(&mut db, "Rust programming", make_embedding(0, 0.0));
    let child_a1 = insert_child(&mut db, "Rust async", 1, root_a);
    let child_a2 = insert_child(&mut db, "Rust traits", 1, root_a);

    let root_b = insert_root(&mut db, "Type systems", make_embedding(3, 0.0));
    associate(&mut db, child_a1, root_b, 0.8);
    associate(&mut db, child_a2, root_b, 0.8);

    let deep = db.search_deep("rust", None, 10);
    let root_b_entries: Vec<_> = deep.iter().filter(|sf| sf.fragment.id == root_b).collect();
    assert!(root_b_entries.len() <= 1, "Should deduplicate results from same tree");
    assert_eq!(deep.len(), 2);
}

#[test]
fn metadata_roundtrips_through_sqlite() {
    let mut db = test_db();

    let mut frag = Fragment::new("Test content".to_string(), 0);
    frag.metadata.insert("type".to_string(), "reflection".to_string());
    frag.metadata.insert("source_count".to_string(), "5".to_string());
    db.storage_mut().insert_fragment(&frag).unwrap();

    let loaded = db.storage().get_fragment(frag.id).unwrap();
    assert_eq!(
        loaded.metadata.get("type").as_deref(),
        Some("reflection"),
        "metadata 'type' should survive roundtrip"
    );
    assert_eq!(
        loaded.metadata.get("source_count").as_deref(),
        Some("5"),
        "metadata 'source_count' should survive roundtrip"
    );

    let row = lore::rows::fragment_to_row(&loaded);
    let again = lore::rows::row_to_fragment(&row).unwrap();
    assert_eq!(again.metadata.get("type").as_deref(), Some("reflection"));
    assert_eq!(again.metadata.get("source_count").as_deref(), Some("5"));
}

#[test]
fn empty_metadata_roundtrips_correctly() {
    let mut db = test_db();

    let frag = Fragment::new("No metadata".to_string(), 0);
    assert!(frag.metadata.is_empty());
    db.storage_mut().insert_fragment(&frag).unwrap();

    let loaded = db.storage().get_fragment(frag.id).unwrap();
    assert!(loaded.metadata.is_empty(), "Empty metadata should roundtrip as empty");
    let row = lore::rows::fragment_to_row(&loaded);
    assert!(lore::rows::row_to_fragment(&row).unwrap().metadata.is_empty());
}

#[test]
fn metadata_with_special_characters_roundtrips() {
    let mut db = test_db();

    let mut frag = Fragment::new("Special chars".to_string(), 0);
    frag.metadata.insert(
        "description".to_string(),
        "Contains \"quotes\" and\nnewlines and émojis 🧠".to_string(),
    );
    db.storage_mut().insert_fragment(&frag).unwrap();

    let loaded = db.storage().get_fragment(frag.id).unwrap();
    let row = lore::rows::fragment_to_row(&loaded);
    let loaded = lore::rows::row_to_fragment(&row).unwrap();
    assert_eq!(
        loaded.metadata.get("description").unwrap(),
        "Contains \"quotes\" and\nnewlines and émojis 🧠"
    );
}

#[test]
fn metadata_visible_in_list_roots() {
    let mut db = test_db();

    let mut frag = Fragment::new("Reflection about patterns".to_string(), 0);
    frag.metadata.insert("type".to_string(), "reflection".to_string());
    db.storage_mut().insert_fragment(&frag).unwrap();

    let roots = db.list_roots(None);
    let loaded = roots.iter().find(|r| r.id == frag.id).unwrap();
    assert_eq!(
        loaded.metadata.get("type").as_deref(),
        Some("reflection"),
        "metadata should be visible when listing roots"
    );
}

#[test]
fn reflection_fragments_can_be_filtered_by_metadata() {
    let mut db = test_db();

    let regular = Fragment::new("Regular knowledge".to_string(), 0);
    db.storage_mut().insert_fragment(&regular).unwrap();

    let mut reflection = Fragment::new("Emerging pattern insight".to_string(), 0);
    reflection.metadata.insert("type".to_string(), "reflection".to_string());
    db.storage_mut().insert_fragment(&reflection).unwrap();

    let roots = db.list_roots(None);
    assert_eq!(roots.len(), 2);

    let reflections: Vec<_> = roots
        .iter()
        .filter(|r| r.metadata.get("type").as_deref() == Some("reflection"))
        .collect();
    assert_eq!(reflections.len(), 1);
    assert_eq!(reflections[0].content, "Emerging pattern insight");

    let non_reflections: Vec<_> = roots
        .iter()
        .filter(|r| r.metadata.get("type").as_deref() != Some("reflection"))
        .collect();
    assert_eq!(non_reflections.len(), 1);
    assert_eq!(non_reflections[0].content, "Regular knowledge");
}

#[test]
fn ppr_handles_bidirectional_edges() {
    let mut db = test_db();

    let root_a = insert_root(&mut db, "Rust error handling", make_embedding(0, 0.0));
    let root_b = insert_root(&mut db, "Go error handling", make_embedding(3, 0.0));

    associate(&mut db, root_a, root_b, 0.9);
    associate(&mut db, root_b, root_a, 0.9);

    let results = db.search_deep("rust error", None, 10);
    assert!(!results.is_empty());
}

#[test]
fn ppr_handles_disconnected_components() {
    let mut db = test_db();

    let root_a = insert_root(&mut db, "Rust programming", make_embedding(0, 0.0));
    let root_b = insert_root(&mut db, "Go programming", make_embedding(1, 0.0));
    associate(&mut db, root_a, root_b, 0.8);

    let root_c = insert_root(&mut db, "Cooking recipes", make_embedding(5, 0.0));
    let root_d = insert_root(&mut db, "Baking techniques", make_embedding(6, 0.0));
    associate(&mut db, root_c, root_d, 0.8);

    let results = db.search_deep("rust", None, 10);
    let ids: Vec<FragmentId> = results.iter().map(|sf| sf.fragment.id).collect();
    assert!(ids.contains(&root_a));
    assert!(!ids.contains(&root_c), "Disconnected component should not appear");
    assert!(!ids.contains(&root_d), "Disconnected component should not appear");
}

#[test]
fn ppr_respects_edge_weights() {
    let mut db = test_db();

    let root_a = insert_root(&mut db, "Rust programming", make_embedding(0, 0.0));
    let root_b = insert_root(&mut db, "Strongly related", make_embedding(3, 0.0));
    let root_c = insert_root(&mut db, "Weakly related", make_embedding(6, 0.0));

    associate(&mut db, root_a, root_b, 1.0);
    associate(&mut db, root_a, root_c, 0.2);

    let results = db.search_deep("rust", None, 10);
    let b_score = results.iter().find(|sf| sf.fragment.id == root_b).map(|sf| sf.score);
    let c_score = results.iter().find(|sf| sf.fragment.id == root_c).map(|sf| sf.score);

    assert!(b_score.is_some() && c_score.is_some());
    if let (Some(b), Some(c)) = (b_score, c_score) {
        assert!(b > c, "{} should be above {}", b, c);
    }
}

#[test]
fn cosine_similarity_of_synthetic_embeddings_is_predictable() {
    let a = make_embedding(0, 0.0);
    let b = make_embedding(0, 0.0);
    let sim = cosine_similarity(&a, &b) as f64 / 1e9;
    assert!(sim > 0.999, "Identical embeddings should have sim ~1.0, got {}", sim);

    let c = make_embedding(0, 0.5);
    let sim2 = cosine_similarity(&a, &c) as f64 / 1e9;
    assert!(sim2 > 0.9 && sim2 < 1.0, "Same topic with noise should be high: {}", sim2);

    let d = make_embedding(0, 0.0);
    let e = make_embedding(5, 0.0);
    let sim3 = cosine_similarity(&d, &e) as f64 / 1e9;
    assert!(sim3 < 0.3, "Different topic embeddings should have low sim, got {}", sim3);

    let f = make_embedding(0, 0.0);
    let g = make_embedding(1, 0.0);
    let sim4 = cosine_similarity(&f, &g) as f64 / 1e9;
    assert!(
        sim4 < 0.5,
        "Adjacent but non-overlapping topics should have low-moderate sim, got {}",
        sim4
    );
}

#[test]
fn find_best_root_handles_single_root() {
    let mut db = test_db();
    let emb = make_embedding(0, 0.0);
    let root_id = insert_root(&mut db, "Only root", emb.clone());

    let result = db.find_best_root_by_embedding(&emb);
    assert!(result.is_some());
    let (id, sim) = result.unwrap();
    assert_eq!(id, root_id);
    assert!(sim > billionths(0.99));
}

#[test]
fn deep_search_on_graph_with_reflections() {
    let mut db = test_db();

    let root_a = insert_root(&mut db, "Rust error handling", make_embedding(0, 0.0));
    let root_b = insert_root(&mut db, "Go error handling", make_embedding(1, 0.0));
    let root_c = insert_root(&mut db, "Error handling principles", make_embedding(2, 0.0));

    associate(&mut db, root_a, root_b, 0.8);
    associate(&mut db, root_a, root_c, 0.8);
    associate(&mut db, root_b, root_c, 0.7);

    let mut reflection = Fragment::new("Error handling is a cross-cutting concern".to_string(), 0);
    reflection.embedding = make_embedding(0, 0.1);
    reflection.metadata.insert("type".to_string(), "reflection".to_string());
    db.storage_mut().insert_fragment(&reflection).unwrap();

    db.link_with_content(
        root_a,
        reflection.id,
        EdgeKind::Associative,
        billionths(1.0),
        Some("derived_from".to_string()),
    )
    .unwrap();

    let results = db.search_deep("rust error", None, 10);
    assert!(!results.is_empty(), "Should find at least the direct match");
}

#[test]
fn superseded_fragments_invisible_to_all_new_features() {
    let mut db = test_db();

    let old_emb = make_embedding(0, 0.0);
    let old_id = insert_root(&mut db, "Old knowledge", old_emb.clone());
    let new_id = insert_root(&mut db, "New knowledge", make_embedding(3, 0.0));
    db.supersede(old_id, new_id).unwrap();

    let result = db.find_best_root_by_embedding(&old_emb);
    assert!(result.is_some());
    assert_ne!(result.unwrap().0, old_id);

    let deep = db.search_deep("old knowledge", None, 10);
    let ids: Vec<FragmentId> = deep.iter().map(|sf| sf.fragment.id).collect();
    assert!(!ids.contains(&old_id), "Superseded should be invisible to deep search");
}

#[test]
fn similarity_is_exact_on_simple_vectors() {
    assert_eq!(cosine_similarity(&vec![300_000_000, 400_000_000], &vec![1, 0]), 600_000_000);
    assert_eq!(cosine_similarity(&vec![1, 0], &vec![-1, 0]), -1_000_000_000);
    assert_eq!(cosine_similarity(&vec![1, 0], &vec![0, 1]), 0);
    assert_eq!(cosine_similarity(&vec![1, 0], &vec![1]), 0);
    assert_eq!(cosine_similarity(&vec![0, 0], &vec![1, 0]), 0);
    assert_eq!(cosine_similarity(&vec![], &vec![]), 0);
}

#[test]
fn one_round_of_activation_is_exact() {
    let links = vec![Link { a: 0, b: 1, weight: 1_000_000_000 }];
    let start = vec![800_000_000i128, 0, 500_000_000];
    let p = spread_over_links(&links, &start, 1);
    // The first keeps 0.15 of its own, and passes 0.85 on; the third has no link.
    assert_eq!(p, vec![120_000_000, 680_000_000, 500_000_000]);
    assert_eq!(spread_over_links(&links, &start, 0), start);
    assert_eq!(spread_over_links(&vec![], &start, 20), start);
}

#[test]
fn links_leave_out_what_does_not_connect() {
    let mut db = test_db();
    let a = insert_root(&mut db, "A", vec![]);
    let b = insert_root(&mut db, "B", vec![]);
    let c = insert_root(&mut db, "C", vec![]);
    db.link(a, b, EdgeKind::Associative, billionths(3.0)).unwrap();
    db.link(a, b, EdgeKind::Associative, 0).unwrap();
    db.link(a, a, EdgeKind::Associative, billionths(1.0)).unwrap();
    db.link(a, b, EdgeKind::Temporal, billionths(1.0)).unwrap();
    db.link(a, c, EdgeKind::Associative, billionths(1.0)).unwrap();
    db.supersede(c, b).unwrap();
    let links = find_links(db.storage().fragments(), db.storage().edges());
    assert_eq!(links.len(), 1);
    assert_eq!((links[0].a, links[0].b, links[0].weight), (0, 1, billionths(1.0)));
}

#[test]
fn deep_search_keeps_to_its_limit() {
    let mut db = test_db();
    for i in 0..5 {
        insert_root(&mut db, &format!("Rust {}", i), vec![]);
    }
    assert_eq!(db.search_deep("rust", None, 3).len(), 3);
    assert_eq!(db.search_trees("rust", None, 3).len(), 3);
    assert!(db.search_deep("rust", None, 0).is_empty());
}

#[test]
fn the_top_of_a_tree_is_found() {
    let mut db = test_db();
    let root = insert_root(&mut db, "Root", vec![]);
    let child = insert_child(&mut db, "Child", 1, root);
    let leaf = insert_child(&mut db, "Leaf", 2, child);
    assert_eq!(db.find_top(leaf), root);
    assert_eq!(db.find_top(root), root);
    // A cycle has no top; climbing ends.
    db.link(leaf, root, EdgeKind::Hierarchical, 1).unwrap();
    let _ = db.find_top(leaf);
}

#[test]
fn similarity_is_exact_for_short_embeddings_too() {
    assert_eq!(cosine_similarity(&vec![1, 1], &vec![1, 0]), 707_106_781);
    assert_eq!(cosine_similarity(&vec![-1, -1], &vec![1, 0]), -707_106_781);
    assert_eq!(cosine_similarity(&vec![3, 4], &vec![4, 3]), 960_000_000);
    assert_eq!(cosine_similarity(&vec![1, 0], &vec![0, 1]), 0);
    assert_eq!(cosine_similarity(&vec![7, 0], &vec![2, 0]), 1_000_000_000);
    assert_eq!(cosine_similarity(&vec![i32::MIN; 3], &vec![i32::MIN; 3]), 1_000_000_000);
    assert_eq!(
        cosine_similarity(&vec![i32::MIN, i32::MIN], &vec![i32::MAX, i32::MIN]),
        0
    );
    assert_eq!(cosine_similarity(&vec![100_000_000, 0], &vec![300_000_000, 400_000_000]), 600_000_000);
    assert_eq!(cosine_similarity(&vec![1], &vec![1, 0]), 0);
    assert_eq!(cosine_similarity(&vec![0, 0], &vec![1, 0]), 0);
}
