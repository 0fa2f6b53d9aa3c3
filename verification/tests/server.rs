//! The tools for agents.

use lore::edge::{Edge, EdgeId, EdgeKind};
use lore::fragment::{now_unix, Fragment, FragmentId};
use lore::server::{
    default_depth, default_detail_depth, default_limit, default_list_limit, default_max_depth,
    default_store_depth, DeleteMemoryParams, ExploreMemoryParams, ListRootsParams,
    ListTopicsParams, MemoryServer, QueryMemoryParams, ReadParams, Reply, SearchParams,
    StoreMemoryParams, TraverseMemoryParams, UpdateMemoryParams,
};

const NOBODY: &str = "00000000-0000-0000-0000-000000000000";

fn data<T>(r: Reply<T>) -> T {
    match r {
        Reply::Data(d) => d,
        Reply::Message(m) => panic!("message: {}", m),
    }
}

fn message<T>(r: Reply<T>) -> String {
    match r {
        Reply::Message(m) => m,
        Reply::Data(_) => panic!("data"),
    }
}

fn child_edge(source: FragmentId, target: FragmentId) -> Edge {
    Edge {
        id: EdgeId::new(),
        source,
        target,
        kind: EdgeKind::Hierarchical,
        weight: 1_000_000_000,
        content: None,
        created_at: now_unix(),
    }
}

fn seed_test_db(server: &mut MemoryServer) {
    let storage = server.db_mut().storage_mut();

    let root =
        Fragment::new("Rust programming language".to_string(), 0).with_summary("Rust".to_string());
    storage.insert_fragment(&root).unwrap();

    let child = Fragment::new("Async Rust: Async programming in Rust using tokio".to_string(), 1)
        .with_summary("Async Rust".to_string());
    storage.insert_fragment(&child).unwrap();
    storage.insert_edge(&child_edge(root.id, child.id)).unwrap();

    let leaf =
        Fragment::new("Tokio uses a work-stealing scheduler for task distribution".to_string(), 2)
            .with_summary("Work-stealing scheduler".to_string());
    storage.insert_fragment(&leaf).unwrap();
    storage.insert_edge(&child_edge(child.id, leaf.id)).unwrap();
}

fn search(query: &str, parent_id: Option<String>) -> SearchParams {
    SearchParams { query: query.to_string(), parent_id, limit: 10, deep: false }
}

fn store(content: &str, summary: &str) -> StoreMemoryParams {
    StoreMemoryParams {
        content: content.to_string(),
        summary: summary.to_string(),
        parent_id: None,
        depth: 0,
    }
}

#[test]
fn test_list_roots() {
    let mut server = MemoryServer::new_in_memory().unwrap();
    seed_test_db(&mut server);

    let roots = data(server.list_roots(&ListRootsParams { limit: 20 }));
    assert_eq!(roots.len(), 1);
    assert_eq!(roots[0].id.len(), 36);
    assert_eq!(roots[0].children_count, 1);
}

#[test]
fn test_search_global() {
    let mut server = MemoryServer::new_in_memory().unwrap();
    seed_test_db(&mut server);

    let hits = data(server.search(&search("Rust", None), None));
    assert_eq!(hits.len(), 1);
    assert_eq!(hits[0].depth, 0);
    assert_eq!(hits[0].score, 860_000_000);
}

#[test]
fn test_search_scoped() {
    let mut server = MemoryServer::new_in_memory().unwrap();
    seed_test_db(&mut server);

    let root_id = server.db().list_roots(None)[0].id.as_str();

    let hits = data(server.search(&search("Async", Some(root_id)), None));
    assert_eq!(hits.len(), 1);
    assert_eq!(hits[0].score, 1_000_000_000);
}

#[test]
fn test_read_fragment() {
    let mut server = MemoryServer::new_in_memory().unwrap();
    seed_test_db(&mut server);

    let root_id = server.db().list_roots(None)[0].id.as_str();

    let parsed = data(server.read(&ReadParams { id: root_id.clone() }));

    assert!(parsed.content.contains("Rust programming"));
    assert_eq!(parsed.depth, 0);
    assert_eq!(parsed.children.len(), 1);
    assert!(parsed.parent_id.is_none());
    assert_eq!(parsed.id, root_id);
}

#[test]
fn test_read_returns_parent_and_children() {
    let mut server = MemoryServer::new_in_memory().unwrap();
    seed_test_db(&mut server);

    let roots = server.db().list_roots(None);
    let children = server.db().children(roots[0].id);
    let root_id = roots[0].id.as_str();
    let child_id = children[0].id.as_str();

    let parsed = data(server.read(&ReadParams { id: child_id }));

    assert_eq!(parsed.parent_id.unwrap(), root_id);
    assert_eq!(parsed.children.len(), 1);
}

#[test]
fn test_store() {
    let mut server = MemoryServer::new_in_memory().unwrap();

    let result = data(server.store(&store("Python is a dynamic language", ""), None));
    assert!(result.status.contains("stored"));
    assert_eq!(result.id.len(), 36);
    assert_eq!(result.depth, Some(0));
    assert!(result.parent_id.is_none());
}

#[test]
fn test_delete() {
    let mut server = MemoryServer::new_in_memory().unwrap();

    let frag_id = data(server.store(&store("Temporary", ""), None)).id;

    let result = data(server.delete(&DeleteMemoryParams { fragment_id: frag_id }));
    assert!(result.status.contains("deleted"));
    assert_eq!(server.db().storage().fragment_count(), 0);
}

#[test]
fn test_update() {
    let mut server = MemoryServer::new_in_memory().unwrap();

    let frag_id = data(server.store(&store("Original", "Summary"), None)).id;

    let result = data(server.update(
        &UpdateMemoryParams { fragment_id: frag_id.clone(), content: "Updated".to_string() },
        None,
    ));
    assert!(result.status.contains("updated"));
    let f = server.db().storage().get_fragment(FragmentId::parse(&frag_id).unwrap()).unwrap();
    assert_eq!(f.content, "Updated");
    assert_eq!(f.summary, "Summary");
}

#[test]
fn test_read_not_found() {
    let mut server = MemoryServer::new_in_memory().unwrap();

    let result = message(server.read(&ReadParams { id: NOBODY.to_string() }));
    assert!(result.contains("not found"));
}

#[test]
fn server_test_list_topics() {
    let mut server = MemoryServer::new_in_memory().unwrap();
    seed_test_db(&mut server);

    let result = data(server.list_topics(&ListTopicsParams {}));
    assert!(result[0].summary.contains("Rust"));
    assert_eq!(result[0].child_count, 1);
}

#[test]
fn test_query_memory() {
    let mut server = MemoryServer::new_in_memory().unwrap();
    seed_test_db(&mut server);

    let result = data(server.query_memory(
        &QueryMemoryParams { topic: "Rust".to_string(), depth: 0, limit: 10 },
        None,
    ));
    assert!(result[0].content.contains("Rust"));
    assert_eq!(result[0].score, Some(860_000_000));
}

#[test]
fn test_store_memory() {
    let mut server = MemoryServer::new_in_memory().unwrap();

    let result =
        data(server.store_memory(&store("Python is a dynamic language", "Python"), None));
    assert!(result.status.contains("stored"));
    assert_eq!(result.fragment_id.len(), 36);
    assert_eq!(result.summary, "Python");
    assert_eq!(result.depth, 0);
}

#[test]
fn test_traverse_memory() {
    let mut server = MemoryServer::new_in_memory().unwrap();
    seed_test_db(&mut server);

    let topic_id = server.db().list_topics()[0].id.as_str();

    let result = data(server.traverse_memory(&TraverseMemoryParams {
        fragment_id: topic_id,
        direction: "children".to_string(),
    }));
    assert!(result[0].summary.contains("Async Rust"));
    assert!(result[0].score.is_none());
}

#[test]
fn test_traverse_invalid_direction() {
    let server = MemoryServer::new_in_memory().unwrap();

    let result = message(server.traverse_memory(&TraverseMemoryParams {
        fragment_id: "00000000-0000-0000-0000-000000000000".to_string(),
        direction: "sideways".to_string(),
    }));
    assert!(result.contains("Invalid direction"));
    assert_eq!(result, "Invalid direction 'sideways'. Use: children, parent, associations");
}

#[test]
fn answers_without_data_say_why() {
    let mut server = MemoryServer::new_in_memory().unwrap();
    assert_eq!(
        message(server.list_roots(&ListRootsParams { limit: 5 })),
        "No knowledge stored yet."
    );
    assert_eq!(message(server.list_topics(&ListTopicsParams {})), "No topics in memory yet.");
    assert_eq!(message(server.search(&search("x", None), None)), "No results for 'x'.");
    assert_eq!(
        message(server.search(&search("x", Some("junk".to_string())), None)),
        "Invalid parent ID: junk"
    );
    assert_eq!(
        message(server.search(&search("x", Some(NOBODY.to_string())), None)),
        "No children found for this fragment."
    );
    assert_eq!(
        message(server.read(&ReadParams { id: "junk".to_string() })),
        "Invalid fragment ID: junk"
    );
    assert_eq!(
        message(server.read(&ReadParams { id: NOBODY.to_string() })),
        format!("Fragment {} not found.", NOBODY)
    );
    assert_eq!(
        message(server.delete(&DeleteMemoryParams { fragment_id: "junk".to_string() })),
        "Invalid fragment ID: junk"
    );
    assert_eq!(
        message(server.update(
            &UpdateMemoryParams { fragment_id: "junk".to_string(), content: String::new() },
            None
        )),
        "Invalid fragment ID: junk"
    );
    assert_eq!(
        message(server.query_memory(
            &QueryMemoryParams { topic: "x".to_string(), depth: 2, limit: 1 },
            None
        )),
        "No memories found for topic 'x' at depth 2."
    );
    assert_eq!(
        message(server.explore_memory(
            &ExploreMemoryParams { topic: "x".to_string(), max_depth: 2 },
            None
        )),
        "No knowledge trees found for topic 'x'."
    );
    assert_eq!(
        message(server.traverse_memory(&TraverseMemoryParams {
            fragment_id: NOBODY.to_string(),
            direction: "parent".to_string(),
        })),
        format!("No parent found for fragment {}.", NOBODY)
    );
    assert_eq!(
        message(server.traverse_memory(&TraverseMemoryParams {
            fragment_id: "junk".to_string(),
            direction: "parent".to_string(),
        })),
        "Invalid fragment ID: junk"
    );
}

#[test]
fn a_missing_parent_is_refused() {
    let mut server = MemoryServer::new_in_memory().unwrap();
    let mut p = store("Child", "");
    p.parent_id = Some("junk".to_string());
    assert_eq!(message(server.store(&p, None)), "Invalid parent ID: junk");
    assert_eq!(message(server.store_memory(&p, None)), "Invalid parent ID: junk");
    p.parent_id = Some(NOBODY.to_string());
    assert!(message(server.store(&p, None)).starts_with("Failed to store: "));
    assert!(message(server.store_memory(&p, None)).starts_with("Failed to store memory: "));
}

#[test]
fn knowledge_without_a_parent_goes_below_the_nearest_root() {
    let mut server = MemoryServer::new_in_memory().unwrap();
    let root = data(server.store(&store("Root", ""), Some(&vec![100_000_000, 0]))).id;
    let mut p = store("Detail", "");
    p.depth = 1;
    let near = data(server.store(&p, Some(&vec![100_000_000, 50_000_000])));
    assert_eq!(near.parent_id, Some(root));
    let far = data(server.store(&p, Some(&vec![0, 100_000_000])));
    assert!(far.parent_id.is_none());
    let without = data(server.store(&p, None));
    assert!(without.parent_id.is_none());
    let named = data(server.store_memory(&p, Some(&vec![100_000_000, 0])));
    assert!(server.db().parent(FragmentId::parse(&named.fragment_id).unwrap()).is_none());
}

#[test]
fn a_deep_search_crosses_associations() {
    let mut server = MemoryServer::new_in_memory().unwrap();
    let a = data(server.store(&store("Rust", ""), None)).id;
    let b = data(server.store(&store("Ownership", ""), None)).id;
    let (a_id, b_id) = (FragmentId::parse(&a).unwrap(), FragmentId::parse(&b).unwrap());
    server.db_mut().link(a_id, b_id, EdgeKind::Associative, 900_000_000).unwrap();
    let mut p = search("rust", None);
    assert_eq!(data(server.search(&p, None)).len(), 1);
    p.deep = true;
    let hits = data(server.search(&p, None));
    assert_eq!(hits.len(), 2);
    assert!(hits.iter().any(|h| h.id == b));
}

#[test]
fn a_scoped_search_by_embedding_ranks_children() {
    let mut server = MemoryServer::new_in_memory().unwrap();
    let root = data(server.store(&store("Root", ""), None)).id;
    for (name, e) in [("x", vec![0, 100]), ("y", vec![100, 0])] {
        let mut p = store(name, "");
        p.depth = 1;
        p.parent_id = Some(root.clone());
        data(server.store(&p, Some(&e)));
    }
    let hits = data(server.search(&search("q", Some(root.clone())), Some(&vec![1, 0])));
    assert_eq!(hits.len(), 2);
    assert_eq!(hits[0].score, 1_000_000_000);
    assert_eq!(hits[1].score, 300_000_000);
    // By text: nothing found is still an answer.
    assert!(data(server.search(&search("nothing", Some(root)), None)).is_empty());
}

#[test]
fn reading_tells_of_associations_and_reinforces() {
    let mut server = MemoryServer::new_in_memory().unwrap();
    let a = data(server.store(&store("A", ""), None)).id;
    let b = data(server.store(&store("B", ""), None)).id;
    let (a_id, b_id) = (FragmentId::parse(&a).unwrap(), FragmentId::parse(&b).unwrap());
    server
        .db_mut()
        .link_with_content(a_id, b_id, EdgeKind::Associative, 1, Some("because".to_string()))
        .unwrap();
    let r = data(server.read(&ReadParams { id: b.clone() }));
    assert_eq!(r.associations.len(), 1);
    assert_eq!(r.associations[0].id, a);
    assert_eq!(r.associations[0].relationship.as_deref(), Some("because"));
    assert_eq!(r.relevance, 1_000_000_000);
    assert_eq!(server.db().storage().get_fragment(b_id).unwrap().access_count, 1);
}

#[test]
fn exploring_tells_of_trees() {
    let mut server = MemoryServer::new_in_memory().unwrap();
    seed_test_db(&mut server);
    let trees = data(server.explore_memory(
        &ExploreMemoryParams { topic: "rust".to_string(), max_depth: 1 },
        None,
    ));
    assert_eq!(trees.len(), 1);
    assert_eq!(trees[0].summary, "Rust");
    assert_eq!(trees[0].children[0].summary, "Async Rust");
    assert!(trees[0].children[0].children.is_empty());
}

#[test]
fn what_supersedes_is_deleted_too() {
    let mut server = MemoryServer::new_in_memory().unwrap();
    let a = data(server.store(&store("A", ""), None)).id;
    let b = data(server.store(&store("B", ""), None)).id;
    let (a_id, b_id) = (FragmentId::parse(&a).unwrap(), FragmentId::parse(&b).unwrap());
    server.db_mut().supersede(a_id, b_id).unwrap();
    let deleted = data(server.delete(&DeleteMemoryParams { fragment_id: b.clone() }));
    assert_eq!(deleted.status, "deleted");
    assert_eq!(
        message(server.read(&ReadParams { id: b.clone() })),
        format!("Fragment {} not found.", b)
    );
    assert!(server.db().storage().get_fragment(a_id).unwrap().superseded_by.is_none());
}

fn put_below(server: &mut MemoryServer, parent: FragmentId, text: &str, relevance: i64) -> String {
    let mut f = Fragment::new(text.to_string(), 1);
    f.relevance_score = relevance;
    let storage = server.db_mut().storage_mut();
    storage.insert_fragment(&f).unwrap();
    storage.insert_edge(&child_edge(parent, f.id)).unwrap();
    f.id.as_str()
}

#[test]
fn a_scoped_search_reaches_all_descendants_in_sight() {
    let mut server = MemoryServer::new_in_memory().unwrap();
    let root = data(server.store(&store("Root", ""), None)).id;
    let root_id = FragmentId::parse(&root).unwrap();
    let child = put_below(&mut server, root_id, "rust: a child", 400_000_000);
    let child_id = FragmentId::parse(&child).unwrap();
    let grandchild = put_below(&mut server, child_id, "rust: a grandchild", 900_000_000);
    put_below(&mut server, root_id, "rust: faded", 10_000_000);
    put_below(&mut server, root_id, "rust: at the threshold", 50_000_000);
    put_below(&mut server, root_id, "go", 800_000_000);
    let hits = data(server.search(&search("RUST", Some(root.clone())), None));
    assert_eq!(hits.len(), 2);
    assert_eq!(hits[0].id, grandchild);
    assert_eq!(hits[0].score, 900_000_000);
    assert_eq!(hits[1].id, child);
    let mut p = search("rust", Some(root));
    p.limit = 1;
    let best = data(server.search(&p, None));
    assert_eq!(best.len(), 1);
    assert_eq!(best[0].id, grandchild);
}

#[test]
fn a_scoped_search_in_a_circle_comes_to_an_end() {
    let mut server = MemoryServer::new_in_memory().unwrap();
    let root = data(server.store(&store("Root", ""), None)).id;
    let root_id = FragmentId::parse(&root).unwrap();
    let child = put_below(&mut server, root_id, "rust", 400_000_000);
    let child_id = FragmentId::parse(&child).unwrap();
    let storage = server.db_mut().storage_mut();
    storage.insert_edge(&child_edge(child_id, root_id)).unwrap();
    let hits = data(server.search(&search("rust", Some(root)), None));
    assert_eq!(hits.len(), 1);
    assert_eq!(hits[0].id, child);
}

#[test]
fn requests_have_defaults() {
    assert_eq!(default_limit(), 10);
    assert_eq!(default_list_limit(), 20);
    assert_eq!(default_store_depth(), 1);
    assert_eq!(default_detail_depth(), 2);
    assert_eq!(default_depth(), 0);
    assert_eq!(default_max_depth(), 2);
}

#[test]
fn what_is_stored_is_found_read_changed_and_deleted() {
    let mut server = MemoryServer::new_in_memory().unwrap();
    let params = StoreMemoryParams {
        content: "Ferris is a crab".to_string(),
        summary: "Mascot".to_string(),
        parent_id: None,
        depth: 0,
    };
    let id = data(server.store(&params, None)).id;
    let hits = data(server.search(&search("FERRIS IS", None), None));
    assert_eq!(hits.len(), 1);
    assert_eq!(hits[0].id, id);
    assert_eq!(hits[0].score, 860_000_000);
    let reading = data(server.read(&ReadParams { id: id.clone() }));
    assert_eq!(reading.id, id);
    assert_eq!(reading.content, "Ferris is a crab");
    assert_eq!(reading.depth, 0);
    let update = UpdateMemoryParams { fragment_id: id.clone(), content: "A crab".to_string() };
    assert_eq!(data(server.update(&update, None)).status, "updated");
    assert_eq!(data(server.read(&ReadParams { id: id.clone() })).content, "A crab");
    let deleted = data(server.delete(&DeleteMemoryParams { fragment_id: id.clone() }));
    assert_eq!(deleted.status, "deleted");
    let answer = message(server.read(&ReadParams { id: id.clone() }));
    assert_eq!(answer, format!("Fragment {} not found.", id));
}
