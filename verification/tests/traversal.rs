use openmemory_rs::graph::{Entity, GraphMemory, Relation};
use openmemory_rs::scope::MemoryScope;
use openmemory_rs::traversal::{bfs_traverse, relation_chain, shortest_path, impact_analysis, TraversalError, TraversalGraph, path_from_indices};

fn person(name: &str) -> Entity {
    Entity { name: name.to_string(), entity_type: "Person".to_string(), observations: vec![] }
}

fn rel(from: &str, to: &str, ty: &str) -> Relation {
    Relation { from: from.to_string(), to: to.to_string(), relation_type: ty.to_string() }
}

fn sample() -> (GraphMemory, MemoryScope) {
    let mut graph = GraphMemory::new();
    let scope = MemoryScope::default();
    graph.create_entities(vec![person("Alice"), person("Bob"), person("Charlie")], &scope);
    graph.create_relations(vec![rel("Alice", "Bob", "knows"), rel("Bob", "Charlie", "knows")], &scope).unwrap();
    (graph, scope)
}

#[test]
fn test_graph_traversal_flows() {
    let (graph, scope) = sample();

    let bfs_res = bfs_traverse(&graph, "Alice", 2, &scope);
    assert_eq!(bfs_res.len(), 2);
    assert_eq!(bfs_res[0].entity_name, "Bob");
    assert_eq!(bfs_res[1].entity_name, "Charlie");

    let path_res = shortest_path(&graph, "Alice", "Charlie", &scope).unwrap();
    assert_eq!(path_res.path, vec!["Alice", "Bob", "Charlie"]);

    let chain_res = relation_chain(&graph, "Alice", &["knows".to_string(), "knows".to_string()], &scope);
    assert_eq!(chain_res, vec!["Charlie"]);
}

#[test]
fn bfs_respects_depth_and_reports_once() {
    let (mut graph, scope) = sample();
    graph.create_relations(vec![rel("Alice", "Charlie", "likes"), rel("Charlie", "Alice", "knows")], &scope).unwrap();
    let one = bfs_traverse(&graph, "Alice", 1, &scope);
    assert_eq!(one.len(), 2);
    assert!(one.iter().all(|s| s.depth == 1));
    assert_eq!(one[0].entity_name, "Charlie");
    assert_eq!(one[0].relation_type, "likes");
    assert_eq!(one[1].entity_name, "Bob");
    assert!(bfs_traverse(&graph, "Alice", 0, &scope).is_empty());
    assert!(bfs_traverse(&graph, "Nobody", 3, &scope).is_empty());
}

#[test]
fn shortest_path_errors() {
    let (graph, scope) = sample();
    match shortest_path(&graph, "Nobody", "Bob", &scope) {
        Err(TraversalError::EntityNotFound(m)) => assert_eq!(m, "Start entity 'Nobody' not found"),
        _ => panic!("expected a missing start"),
    }
    match shortest_path(&graph, "Bob", "Nobody", &scope) {
        Err(TraversalError::EntityNotFound(m)) => assert_eq!(m, "Target entity 'Nobody' not found"),
        _ => panic!("expected a missing target"),
    }
    match shortest_path(&graph, "Charlie", "Alice", &scope) {
        Err(TraversalError::PathNotFound(m)) => assert_eq!(m, "No path found between Charlie and Alice"),
        _ => panic!("expected no path"),
    }
    let p = shortest_path(&graph, "Alice", "Charlie", &scope).unwrap();
    assert_eq!(p.relations, vec!["knows", "knows"]);
}

#[test]
fn path_from_given_indices() {
    let (graph, scope) = sample();
    let t = TraversalGraph::build(&graph, &scope);
    let p = path_from_indices(&t, &vec![0, 1, 2]);
    assert_eq!(p.path, vec!["Alice", "Bob", "Charlie"]);
    assert_eq!(p.relations, vec!["knows", "knows"]);
}

#[test]
fn test_code_impact_analysis() {
    let ids = vec!["fn_a".to_string(), "fn_b".to_string()];
    let calls = vec![("fn_b".to_string(), "fn_a".to_string())];
    let report = impact_analysis(&ids, &calls, "fn_a").unwrap();
    assert_eq!(report.affected_symbols, vec!["fn_b"]);
    assert_eq!(report.max_depth, 1);
    assert_eq!(report.direct_callers, 1);
    assert_eq!(report.transitive_callers, 0);
    assert_eq!(report.details, "Target 'fn_a' has 1 direct callers and 0 transitive callers. Maximum propagation depth: 1.");
}

#[test]
fn impact_follows_callers_transitively() {
    let ids = vec!["a".to_string(), "b".to_string(), "c".to_string(), "d".to_string()];
    let calls = vec![
        ("b".to_string(), "a".to_string()),
        ("c".to_string(), "b".to_string()),
        ("d".to_string(), "a".to_string()),
        ("x".to_string(), "a".to_string()),
    ];
    let report = impact_analysis(&ids, &calls, "a").unwrap();
    assert_eq!(report.affected_symbols, vec!["d", "b", "c"]);
    assert_eq!(report.max_depth, 2);
    assert_eq!(report.direct_callers, 2);
    assert_eq!(report.transitive_callers, 1);
    assert_eq!(impact_analysis(&ids, &calls, "zz").err(), Some("Symbol 'zz' not found in indexed codebase".to_string()));
}

#[test]
fn bfs_reports_each_node_at_its_distance() {
    let (mut graph, scope) = sample();
    graph.create_entities(vec![person("Dana")], &scope);
    graph.create_relations(vec![rel("Alice", "Charlie", "likes"), rel("Charlie", "Dana", "knows")], &scope).unwrap();
    let steps = bfs_traverse(&graph, "Alice", 5, &scope);
    let got: Vec<(String, u32)> = steps.iter().map(|s| (s.entity_name.clone(), s.depth)).collect();
    assert_eq!(got.len(), 3);
    assert!(got.contains(&("Bob".to_string(), 1)));
    assert!(got.contains(&("Charlie".to_string(), 1)));
    assert_eq!(got[2], ("Dana".to_string(), 2));
    let near = bfs_traverse(&graph, "Alice", 1, &scope);
    assert_eq!(near.len(), 2);
}
