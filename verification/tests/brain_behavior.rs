//! How the memory behaves as a whole: decay, reinforcement, forgetting.

use lore::edge::{Edge, EdgeId, EdgeKind};
use lore::fragment::{now_unix, Fragment, FragmentId};
use lore::query::LoreDb;
use lore::relevance::{compute_relevance, decay_rate_for_importance};
use lore::storage::Storage;

fn billionths(x: f64) -> i64 {
    (x * 1e9).round() as i64
}

fn test_db() -> LoreDb {
    let storage = Storage::open_memory().unwrap();
    LoreDb::new_without_embeddings(storage)
}

fn relevance(importance: f64, accesses: u32, rate: i64, reinforced: i64, now: i64) -> f64 {
    compute_relevance(billionths(importance), accesses, rate, reinforced, now) as f64 / 1e9
}

#[allow(clippy::too_many_arguments)]
fn insert_fragment(
    db: &mut LoreDb,
    content: &str,
    depth: u32,
    embedding: Vec<i32>,
    importance: f64,
    age_days: i64,
    access_count: u32,
    parent: Option<FragmentId>,
) -> FragmentId {
    let now = now_unix();
    let created = now - age_days * 86400;
    let mut frag =
        Fragment::new_with_importance(content.to_string(), depth, billionths(importance));
    frag.embedding = embedding;
    frag.created_at = created;
    frag.last_accessed = created;
    frag.last_reinforced = created;
    frag.access_count = access_count;
    frag.relevance_score = compute_relevance(
        frag.importance,
        frag.access_count,
        frag.decay_rate,
        frag.last_reinforced,
        now,
    );
    db.storage_mut().insert_fragment(&frag).unwrap();

    if let Some(parent_id) = parent {
        let edge = Edge {
            id: EdgeId::new(),
            source: parent_id,
            target: frag.id,
            kind: EdgeKind::Hierarchical,
            weight: billionths(1.0),
            content: None,
            created_at: now,
        };
        db.storage_mut().insert_edge(&edge).unwrap();
    }

    frag.id
}

fn link(db: &mut LoreDb, source: FragmentId, target: FragmentId, kind: EdgeKind, weight: f64) {
    db.link(source, target, kind, billionths(weight)).unwrap();
}

#[test]
fn memories_decay_with_age() {
    let day = 86400i64;
    let now = 1_000_000_000;
    let importance = 0.5;
    let decay_rate = decay_rate_for_importance(billionths(importance));

    let r_fresh = relevance(importance, 0, decay_rate, now, now);
    let r_1week = relevance(importance, 0, decay_rate, now - 7 * day, now);
    let r_1month = relevance(importance, 0, decay_rate, now - 30 * day, now);
    let r_3months = relevance(importance, 0, decay_rate, now - 90 * day, now);

    assert!(r_fresh > r_1week, "1 week old should be weaker than fresh");
    assert!(r_1week > r_1month, "1 month old should be weaker than 1 week");
    assert!(r_1month > r_3months, "3 months old should be weaker than 1 month");
}

#[test]
fn decay_is_exponential_not_linear() {
    let now = 1_000_000_000;
    let day = 86400i64;
    let rate = billionths(0.035);

    let r0 = relevance(0.5, 0, rate, now, now);
    let r10 = relevance(0.5, 0, rate, now - 10 * day, now);
    let r20 = relevance(0.5, 0, rate, now - 20 * day, now);
    let r30 = relevance(0.5, 0, rate, now - 30 * day, now);

    let drop_0_to_10 = r0 - r10;
    let drop_10_to_20 = r10 - r20;
    let drop_20_to_30 = r20 - r30;

    assert!(drop_0_to_10 > drop_10_to_20, "First 10 days should drop more than days 10-20");
    assert!(drop_10_to_20 > drop_20_to_30, "Days 10-20 should drop more than days 20-30");
}

#[test]
fn batch_decay_recomputation_updates_all_fragments() {
    let mut db = test_db();
    let now = now_unix();

    let id_fresh = insert_fragment(&mut db, "Fresh", 0, vec![], 0.5, 0, 0, None);
    let id_old = insert_fragment(&mut db, "Old", 0, vec![], 0.5, 30, 0, None);
    let id_ancient = insert_fragment(&mut db, "Ancient", 0, vec![], 0.5, 90, 0, None);

    let updated = db.storage_mut().recompute_all_relevance(now);
    assert_eq!(updated, 3);

    let fresh = db.storage().get_fragment(id_fresh).unwrap();
    let old = db.storage().get_fragment(id_old).unwrap();
    let ancient = db.storage().get_fragment(id_ancient).unwrap();

    assert!(fresh.relevance_score > old.relevance_score);
    assert!(old.relevance_score > ancient.relevance_score);
}

#[test]
fn accessing_a_memory_increases_relevance() {
    let mut db = test_db();

    let id = insert_fragment(&mut db, "Some knowledge", 0, vec![], 0.5, 30, 0, None);
    let before = db.storage().get_fragment(id).unwrap();

    let now = now_unix();
    let new_relevance = compute_relevance(
        before.importance,
        before.access_count + 1,
        before.decay_rate,
        now,
        now,
    );
    db.storage_mut().reinforce_fragment(id, now, new_relevance);

    let after = db.storage().get_fragment(id).unwrap();

    assert!(after.relevance_score > before.relevance_score);
    assert!(after.access_count > before.access_count);
    assert!(after.last_reinforced >= now);
}

#[test]
fn repeated_access_shows_diminishing_returns() {
    let now = 1_000_000_000;
    let rate = billionths(0.035);

    let r_0 = relevance(0.5, 0, rate, now, now);
    let r_1 = relevance(0.5, 1, rate, now, now);
    let r_10 = relevance(0.5, 10, rate, now, now);
    let r_100 = relevance(0.5, 100, rate, now, now);

    let marginal_at_1 = r_1 - r_0;
    let marginal_at_10 = r_10 - relevance(0.5, 9, rate, now, now);
    let marginal_at_100 = r_100 - relevance(0.5, 99, rate, now, now);

    assert!(marginal_at_1 > 0.0, "First access should strengthen");
    assert!(r_100 > r_10, "More accesses should still strengthen");
    assert!(marginal_at_1 > marginal_at_10);
    assert!(marginal_at_10 > marginal_at_100);
}

#[test]
fn reinforcement_resets_decay_timer() {
    let mut db = test_db();
    let now = now_unix();

    let id = insert_fragment(&mut db, "Old memory", 0, vec![], 0.5, 60, 0, None);
    let before = db.storage().get_fragment(id).unwrap();

    let new_relevance = compute_relevance(billionths(0.5), 1, before.decay_rate, now, now);
    db.storage_mut().reinforce_fragment(id, now, new_relevance);

    let after = db.storage().get_fragment(id).unwrap();

    assert_eq!(after.last_reinforced, now);
    assert!(after.relevance_score > before.relevance_score);
}

#[test]
fn accessing_a_fragment_boosts_connected_neighbors() {
    let mut db = test_db();
    let now = now_unix();

    let topic_id = insert_fragment(&mut db, "Topic", 0, vec![], 0.5, 10, 0, None);
    let child_id = insert_fragment(&mut db, "Child", 1, vec![], 0.5, 10, 0, Some(topic_id));
    let assoc_id = insert_fragment(&mut db, "Associated", 0, vec![], 0.5, 10, 0, None);
    link(&mut db, topic_id, assoc_id, EdgeKind::Associative, 0.8);

    let child_before = db.storage().get_fragment(child_id).unwrap();
    let assoc_before = db.storage().get_fragment(assoc_id).unwrap();

    let boost = 0.1;
    db.storage_mut().boost_relevance(child_id, billionths(boost * 1.0), now);
    db.storage_mut().boost_relevance(assoc_id, billionths(boost * 0.8), now);

    let child_after = db.storage().get_fragment(child_id).unwrap();
    let assoc_after = db.storage().get_fragment(assoc_id).unwrap();

    assert!(child_after.relevance_score > child_before.relevance_score, "Child should get boosted");
    assert!(
        assoc_after.relevance_score > assoc_before.relevance_score,
        "Association should get boosted"
    );
}

#[test]
fn boost_is_capped_at_one() {
    let mut db = test_db();
    let now = now_unix();

    let id = insert_fragment(&mut db, "Fresh", 0, vec![], 1.0, 0, 10, None);

    db.storage_mut().boost_relevance(id, billionths(0.5), now);

    let after = db.storage().get_fragment(id).unwrap();
    assert!(after.relevance_score <= billionths(1.0));
}

#[test]
fn important_memories_decay_slower() {
    let now = 1_000_000_000;
    let day = 86400i64;

    let high = decay_rate_for_importance(billionths(0.9));
    let low = decay_rate_for_importance(billionths(0.2));

    let r_high = relevance(0.9, 0, high, now - 30 * day, now);
    let r_low = relevance(0.2, 0, low, now - 30 * day, now);

    assert!(r_high > r_low);
}

#[test]
fn important_memories_never_fully_vanish() {
    let now = 1_000_000_000;
    let day = 86400i64;

    let r = relevance(1.0, 0, billionths(0.01), now - 365 * day, now);
    assert!(r >= 0.25, "Critical memory should maintain a floor even after a year, got {}", r);

    let r_low = relevance(0.1, 0, billionths(0.07), now - 365 * day, now);
    assert!(r_low < 0.05, "Trivial memory should nearly vanish after a year, got {}", r_low);
}

#[test]
fn importance_determines_decay_rate() {
    let high = decay_rate_for_importance(billionths(1.0));
    let mid = decay_rate_for_importance(billionths(0.5));
    let low = decay_rate_for_importance(billionths(0.0));

    assert!(high < mid, "High importance should decay slower");
    assert!(mid < low, "Medium importance should decay slower than low");
    assert!(high > 0, "Decay rate should be positive");
    assert!(low < billionths(0.1), "Decay rate shouldn't be extreme");
}

#[test]
fn fragment_with_importance_gets_correct_decay_rate() {
    let frag = Fragment::new_with_importance("Important decision".to_string(), 0, billionths(0.9));

    let expected_rate = decay_rate_for_importance(billionths(0.9));
    assert!((frag.decay_rate - expected_rate).abs() < billionths(1e-6));
    assert!((frag.importance - billionths(0.9)).abs() < billionths(1e-6));
}

#[test]
fn very_old_low_importance_fragments_are_candidates_for_pruning() {
    let mut db = test_db();
    let now = now_unix();

    let _fresh = insert_fragment(&mut db, "Fresh", 1, vec![], 0.5, 0, 0, None);
    let _old_important = insert_fragment(&mut db, "Old important", 1, vec![], 0.9, 90, 0, None);
    let old_trivial = insert_fragment(&mut db, "Old trivial", 1, vec![], 0.1, 90, 0, None);

    db.storage_mut().recompute_all_relevance(now);

    let candidates = db.storage().get_low_relevance_fragments(billionths(0.05), 60 * 86400, now);

    assert!(
        candidates.iter().any(|f| f.id == old_trivial),
        "Old trivial fragment should be a pruning candidate"
    );
    assert!(
        !candidates.iter().any(|f| f.content == "Fresh"),
        "Fresh fragment should not be a candidate"
    );
}

#[test]
fn depth_zero_topics_are_never_pruning_candidates() {
    let mut db = test_db();
    let now = now_unix();

    let _root = insert_fragment(&mut db, "Old topic", 0, vec![], 0.1, 120, 0, None);

    db.storage_mut().recompute_all_relevance(now);

    let candidates = db.storage().get_low_relevance_fragments(billionths(1.0), 0, now);
    assert!(
        candidates.iter().all(|f| f.depth > 0),
        "Depth-0 roots should never be pruning candidates"
    );
}

#[test]
fn superseded_fragments_are_excluded_from_pruning_candidates() {
    let mut db = test_db();
    let now = now_unix();

    let old_id = insert_fragment(&mut db, "Old version", 1, vec![], 0.5, 90, 0, None);
    let new_id = insert_fragment(&mut db, "New version", 1, vec![], 0.5, 0, 0, None);
    db.supersede(old_id, new_id).unwrap();

    let candidates = db.storage().get_low_relevance_fragments(billionths(1.0), 0, now);
    assert!(
        !candidates.iter().any(|f| f.id == old_id),
        "Superseded fragments should be excluded from pruning"
    );
}

#[test]
fn relevance_modulates_text_query_ordering() {
    let mut db = test_db();
    let now = now_unix();

    let _stale =
        insert_fragment(&mut db, "Rust is a systems language", 0, vec![], 0.2, 90, 0, None);
    let _fresh =
        insert_fragment(&mut db, "Rust programming patterns", 0, vec![], 0.8, 1, 5, None);

    db.storage_mut().recompute_all_relevance(now);

    let roots = db.list_roots(None);
    assert_eq!(roots.len(), 2);
    assert!(roots[0].relevance_score >= roots[1].relevance_score);
}

#[test]
fn edge_weights_decay_over_consolidation_cycles() {
    let mut db = test_db();

    let a = insert_fragment(&mut db, "A", 0, vec![], 0.5, 0, 0, None);
    let b = insert_fragment(&mut db, "B", 0, vec![], 0.5, 0, 0, None);
    link(&mut db, a, b, EdgeKind::Associative, 1.0);

    for _ in 0..5 {
        db.storage_mut().decay_edge_weights(EdgeKind::Associative, billionths(0.95));
    }

    let edges = db.storage().get_edges_for(a);
    let edge = edges.iter().find(|e| e.kind == EdgeKind::Associative).unwrap();

    let weight = edge.weight as f64 / 1e9;
    assert!((weight - 0.7738).abs() < 0.01, "Edge should have decayed to ~0.774, got {}", weight);
}

#[test]
fn weak_edges_are_pruned_at_threshold() {
    let mut db = test_db();

    let a = insert_fragment(&mut db, "A", 0, vec![], 0.5, 0, 0, None);
    let b = insert_fragment(&mut db, "B", 0, vec![], 0.5, 0, 0, None);
    let c = insert_fragment(&mut db, "C", 0, vec![], 0.5, 0, 0, None);

    link(&mut db, a, b, EdgeKind::Associative, 0.5);
    link(&mut db, a, c, EdgeKind::Associative, 0.1);

    let pruned = db.storage_mut().delete_weak_edges(EdgeKind::Associative, billionths(0.15));
    assert_eq!(pruned, 1, "Should prune exactly the weak edge");

    let edges = db.storage().get_edges_for(a);
    let assoc_edges: Vec<_> = edges.iter().filter(|e| e.kind == EdgeKind::Associative).collect();
    assert_eq!(assoc_edges.len(), 1, "Only the strong edge should remain");
}

#[test]
fn hierarchical_edges_are_not_affected_by_associative_decay() {
    let mut db = test_db();

    let parent = insert_fragment(&mut db, "Parent", 0, vec![], 0.5, 0, 0, None);
    let _child = insert_fragment(&mut db, "Child", 1, vec![], 0.5, 0, 0, Some(parent));

    db.storage_mut().decay_edge_weights(EdgeKind::Associative, billionths(0.5));

    let children = db.children(parent);
    assert_eq!(children.len(), 1);
}

#[test]
fn temporal_edges_connect_sequential_siblings() {
    let mut db = test_db();
    let topic = insert_fragment(&mut db, "Topic", 0, vec![], 0.5, 0, 0, None);
    let child1 = insert_fragment(&mut db, "First", 1, vec![], 0.5, 0, 0, Some(topic));
    let child2 = insert_fragment(&mut db, "Second", 1, vec![], 0.5, 0, 0, Some(topic));
    let child3 = insert_fragment(&mut db, "Third", 1, vec![], 0.5, 0, 0, Some(topic));

    link(&mut db, child1, child2, EdgeKind::Temporal, 1.0);
    link(&mut db, child2, child3, EdgeKind::Temporal, 1.0);

    let edges1 = db.storage().get_edges_for(child1);
    let temporal1: Vec<_> = edges1
        .iter()
        .filter(|e| e.kind == EdgeKind::Temporal && e.source == child1)
        .collect();
    assert_eq!(temporal1.len(), 1);
    assert_eq!(temporal1[0].target, child2);

    let edges2 = db.storage().get_edges_for(child2);
    let temporal2: Vec<_> = edges2
        .iter()
        .filter(|e| e.kind == EdgeKind::Temporal && e.source == child2)
        .collect();
    assert_eq!(temporal2.len(), 1);
    assert_eq!(temporal2[0].target, child3);
}

#[test]
fn new_fragments_have_correct_defaults() {
    let frag = Fragment::new("Test".to_string(), 0);
    assert!((frag.importance - billionths(0.5)).abs() < billionths(1e-6));
    assert!((frag.relevance_score - billionths(1.0)).abs() < billionths(1e-6));
    assert!((frag.decay_rate - billionths(0.035)).abs() < billionths(1e-6));
    assert!(frag.last_reinforced > 0, "last_reinforced should be set");
}

#[test]
fn migration_v2_columns_are_readable() {
    let storage = Storage::open_memory().unwrap();
    let mut db = LoreDb::new_without_embeddings(storage);

    let frag = Fragment::new_with_importance("Test".to_string(), 0, billionths(0.9));
    db.storage_mut().insert_fragment(&frag).unwrap();

    let loaded = db.storage().get_fragment(frag.id).unwrap();
    assert!((loaded.importance - billionths(0.9)).abs() < billionths(1e-6));
    assert!(loaded.relevance_score > 0);
    assert!(loaded.decay_rate > 0);
    assert!(loaded.last_reinforced > 0);
}

#[test]
fn query_reinforces_returned_fragments() {
    let mut db = test_db();

    let mut frag = Fragment::new("Rust async patterns".to_string(), 0);
    frag.embedding = vec![10_000_000; 384];
    db.storage_mut().insert_fragment(&frag).unwrap();
    let original_access = frag.access_count;

    let results = db.query("rust", None, 0, 10);
    assert!(!results.is_empty());

    let after = db.storage().get_fragment(frag.id).unwrap();
    assert!(after.access_count > original_access, "Query should increment access_count");
}

#[test]
fn superseded_fragments_dont_appear_in_queries() {
    let mut db = test_db();

    let mut old = Fragment::new("Old info".to_string(), 0);
    old.embedding = vec![10_000_000; 384];
    db.storage_mut().insert_fragment(&old).unwrap();

    let mut new = Fragment::new("Updated info".to_string(), 0);
    new.embedding = vec![10_000_000; 384];
    db.storage_mut().insert_fragment(&new).unwrap();

    db.supersede(old.id, new.id).unwrap();

    let roots = db.list_roots(None);
    assert!(!roots.iter().any(|t| t.id == old.id));
}

#[test]
fn superseded_fragments_dont_appear_in_children() {
    let mut db = test_db();

    let topic = insert_fragment(&mut db, "Topic", 0, vec![], 0.5, 0, 0, None);
    let old_child = insert_fragment(&mut db, "Old child", 1, vec![], 0.5, 0, 0, Some(topic));
    let new_child = insert_fragment(&mut db, "New child", 1, vec![], 0.5, 0, 0, Some(topic));

    db.supersede(old_child, new_child).unwrap();

    let children = db.children(topic);
    assert!(!children.iter().any(|c| c.id == old_child));
    assert!(children.iter().any(|c| c.id == new_child), "New child should appear");
}

#[test]
fn pruning_a_node_removes_all_its_edges() {
    let mut db = test_db();

    let topic = insert_fragment(&mut db, "Topic", 0, vec![], 0.5, 0, 0, None);
    let child = insert_fragment(&mut db, "Child", 1, vec![], 0.5, 0, 0, Some(topic));
    let assoc = insert_fragment(&mut db, "Associated", 1, vec![], 0.5, 0, 0, None);
    link(&mut db, child, assoc, EdgeKind::Associative, 0.8);

    let edges_before = db.storage().get_edges_for(child);
    assert!(edges_before.len() >= 2, "Should have hierarchical + associative edges");

    db.prune(child).unwrap();

    let edges_after = db.storage().get_edges_for(child);
    assert_eq!(edges_after.len(), 0, "All edges should be removed on prune");

    let children = db.children(topic);
    assert_eq!(children.len(), 0);
}

#[test]
fn subtree_respects_max_depth() {
    let mut db = test_db();

    let l0 = insert_fragment(&mut db, "L0", 0, vec![], 0.5, 0, 0, None);
    let l1 = insert_fragment(&mut db, "L1", 1, vec![], 0.5, 0, 0, Some(l0));
    let l2 = insert_fragment(&mut db, "L2", 2, vec![], 0.5, 0, 0, Some(l1));
    let _l3 = insert_fragment(&mut db, "L3", 3, vec![], 0.5, 0, 0, Some(l2));

    let tree = db.subtree(l0, 2).unwrap();
    assert_eq!(tree.children.len(), 1);
    assert_eq!(tree.children[0].children.len(), 1);
    assert_eq!(tree.children[0].children[0].children.len(), 0);
}

#[test]
fn lifecycle_fresh_memory_ages_and_can_be_rescued_by_access() {
    let mut db = test_db();
    let now = now_unix();
    let day = 86400i64;

    let id = insert_fragment(
        &mut db,
        "Important architectural decision about async runtime",
        0,
        vec![],
        0.5,
        0,
        0,
        None,
    );

    let future = now + 30 * day;
    db.storage_mut().recompute_all_relevance(future);
    let after_30d = db.storage().get_fragment(id).unwrap();

    let future = now + 60 * day;
    db.storage_mut().recompute_all_relevance(future);
    let after_60d = db.storage().get_fragment(id).unwrap();

    assert!(after_60d.relevance_score < after_30d.relevance_score, "Should continue to decay");

    let new_rel = compute_relevance(billionths(0.5), 1, after_60d.decay_rate, future, future);
    db.storage_mut().reinforce_fragment(id, future, new_rel);
    let after_rescue = db.storage().get_fragment(id).unwrap();

    assert!(after_rescue.relevance_score > after_60d.relevance_score);
}

#[test]
fn lifecycle_important_vs_trivial_over_time() {
    let now = 1_000_000_000;
    let day = 86400i64;

    let critical_rate = decay_rate_for_importance(billionths(0.9));
    let trivial_rate = decay_rate_for_importance(billionths(0.2));

    for days in [0, 7, 30, 60, 90, 180] {
        let t = now - days * day;
        let r_critical = relevance(0.9, 0, critical_rate, t, now);
        let r_trivial = relevance(0.2, 0, trivial_rate, t, now);
        assert!(r_critical > r_trivial, "At day {}", days);
    }

    let r_trivial_180 = relevance(0.2, 0, trivial_rate, now - 180 * day, now);
    assert!(r_trivial_180 < 0.08, "got {}", r_trivial_180);

    let r_critical_180 = relevance(0.9, 0, critical_rate, now - 180 * day, now);
    assert!(r_critical_180 > 0.25, "got {}", r_critical_180);
}

#[test]
fn lifecycle_knowledge_graph_with_mixed_ages() {
    let mut db = test_db();
    let now = now_unix();

    insert_fragment(
        &mut db,
        "Use SQLite WAL mode for concurrent access",
        0,
        vec![],
        0.9,
        2,
        3,
        None,
    );
    insert_fragment(
        &mut db,
        "Rust error handling with thiserror + anyhow",
        0,
        vec![],
        0.5,
        45,
        20,
        None,
    );
    insert_fragment(
        &mut db,
        "The CI pipeline takes about 3 minutes",
        0,
        vec![],
        0.1,
        60,
        0,
        None,
    );
    insert_fragment(&mut db, "User prefers concise responses", 0, vec![], 0.3, 5, 1, None);

    db.storage_mut().recompute_all_relevance(now);

    let roots = db.list_roots(None);
    assert_eq!(roots.len(), 4);

    assert_eq!(
        roots[0].content, "Use SQLite WAL mode for concurrent access",
        "Recent important memory should rank first"
    );
    assert_eq!(
        roots[3].content, "The CI pipeline takes about 3 minutes",
        "Old trivial memory should rank last"
    );
}

#[test]
fn recall_reinforces_and_primes() {
    let mut db = test_db();
    let topic = insert_fragment(&mut db, "Topic", 0, vec![], 0.5, 30, 0, None);
    let child = insert_fragment(&mut db, "Child", 1, vec![], 0.5, 30, 0, Some(topic));
    let before = db.storage().get_fragment(child).unwrap();
    let now = now_unix();
    db.reinforce_on_access(topic, now);
    let recalled = db.storage().get_fragment(topic).unwrap();
    assert_eq!(recalled.access_count, 1);
    assert_eq!(recalled.last_reinforced, now);
    assert_eq!(recalled.relevance_score, compute_relevance(
        recalled.importance,
        1,
        recalled.decay_rate,
        now,
        now,
    ));
    let primed = db.storage().get_fragment(child).unwrap();
    assert_eq!(primed.access_count, 0);
    assert_eq!(primed.relevance_score, before.relevance_score + 100_000_000);
    assert_eq!(primed.last_reinforced, before.last_reinforced);
}

#[test]
fn recalling_what_is_not_there_changes_nothing() {
    let mut db = test_db();
    insert_fragment(&mut db, "Topic", 0, vec![], 0.5, 30, 0, None);
    db.reinforce_on_access(FragmentId::new(), now_unix());
    assert_eq!(db.list_roots(None)[0].access_count, 0);
}
