use openmemory_rs::decision::DecisionEngine;
use openmemory_rs::graph::{GraphMemory, Relation};
use openmemory_rs::scope::MemoryScope;

fn rel(from: &str, to: &str, ty: &str) -> Relation {
    Relation { from: from.to_string(), to: to.to_string(), relation_type: ty.to_string() }
}

#[test]
fn exclusive_relation_replaces_old_target() {
    let mut graph = GraphMemory::new();
    let scope = MemoryScope::default();
    let r1 = DecisionEngine::decide_relation_at(&mut graph, &rel("A", "NY", "lives_in"), &scope, "2024-01-01T00:00:00Z").unwrap();
    assert_eq!(r1.action, "add");
    assert_eq!(r1.message, "Created new graph relation 'A->NY (lives_in)'");
    let r2 = DecisionEngine::decide_relation_at(&mut graph, &rel("A", "NY", "lives_in"), &scope, "2024-01-01T00:00:01Z").unwrap();
    assert_eq!(r2.action, "no-op");
    assert_eq!(r2.message, "Graph relation 'A lives_in NY' already exists.");
    let r3 = DecisionEngine::decide_relation_at(&mut graph, &rel("A", "LA", "lives_in"), &scope, "2024-01-01T00:00:02Z").unwrap();
    assert_eq!(r3.action, "delete_add");
    assert_eq!(r3.layer, "graph");
    assert_eq!(r3.message, "Superseded old graph relation 'A lives_in NY' with 'A lives_in LA'");
    assert_eq!(r3.winner_id, Some("A-LA-lives_in".to_string()));
    assert_eq!(r3.loser_id, Some("A-NY-lives_in".to_string()));
    let active = graph.read_graph(&scope);
    assert_eq!(active.relations.len(), 1);
    assert_eq!(active.relations[0].to, "LA");
}

#[test]
fn non_exclusive_relations_accumulate() {
    let mut graph = GraphMemory::new();
    let scope = MemoryScope::default();
    DecisionEngine::decide_relation_at(&mut graph, &rel("A", "B", "knows"), &scope, "2024-01-01T00:00:00Z").unwrap();
    let r = DecisionEngine::decide_relation_at(&mut graph, &rel("A", "C", "knows"), &scope, "2024-01-01T00:00:01Z").unwrap();
    assert_eq!(r.action, "add");
    assert_eq!(graph.read_graph(&scope).relations.len(), 2);
}

#[test]
fn exclusive_types_listed() {
    assert_eq!(
        openmemory_rs::decision::exclusive_relation_types(),
        vec!["lives_in", "current_job", "spouse", "has_status", "is_born_in", "located_in"]
    );
}
