use openmemory_rs::graph::{Entity, GraphMemory, Relation};
use openmemory_rs::scope::MemoryScope;

fn test_scope() -> MemoryScope {
    MemoryScope {
        user_id: Some("test_user".to_string()),
        session_id: Some("test_session".to_string()),
        agent_id: Some("test_agent".to_string()),
    }
}

fn person(name: &str, obs: &str) -> Entity {
    Entity { name: name.to_string(), entity_type: "Person".to_string(), observations: vec![obs.to_string()] }
}

#[test]
fn test_graph_edges_bitemporal_behavior() {
    let mut graph = GraphMemory::new();
    let scope = test_scope();
    graph.create_entities(vec![person("A", "Obs 1"), person("B", "Obs 2")], &scope);

    let rel = Relation { from: "A".to_string(), to: "B".to_string(), relation_type: "friends_with".to_string() };
    let created = graph.create_relations(vec![rel.clone()], &scope).unwrap();
    assert_eq!(created.len(), 1);

    let kg = graph.read_graph(&scope);
    assert_eq!(kg.relations.len(), 1);
    assert_eq!(kg.relations[0].from, "A");
    assert_eq!(kg.relations[0].to, "B");

    let created_dup = graph.create_relations(vec![rel.clone()], &scope).unwrap();
    assert_eq!(created_dup.len(), 0);

    graph.delete_relations(vec![rel.clone()], &scope);
    assert_eq!(graph.read_graph(&scope).relations.len(), 0);
    assert_eq!(graph.search_nodes("A", &scope).relations.len(), 0);
    assert_eq!(graph.open_nodes(vec!["A".to_string(), "B".to_string()], &scope).relations.len(), 0);

    let closed = graph.edge_rows().iter().filter(|e| e.valid_until.is_some()).count();
    assert_eq!(closed, 1);
    let a_edge = graph.edge_rows().iter().find(|e| e.from == "A").unwrap();
    assert_eq!(a_edge.confidence_ppm, 1_000_000);
}

#[test]
fn test_graph_history_and_temporal_queries() {
    let mut graph = GraphMemory::new();
    let scope = test_scope();
    graph.create_entities(vec![person("A", "Obs 1"), person("B", "Obs 2")], &scope);

    let before_creation = "2024-05-01T10:00:00Z";
    let rel = Relation { from: "A".to_string(), to: "B".to_string(), relation_type: "colleagues".to_string() };
    graph.create_relations_at(vec![rel.clone()], &scope, "2024-05-01T10:00:01Z").unwrap();
    let after_creation = "2024-05-01T10:00:02Z";
    assert!(graph.invalidate_edge_at("A", "B", "colleagues", &scope, "2024-05-01T10:00:03Z"));
    let after_invalidation = "2024-05-01T10:00:04Z";

    let history = graph.query_fact_history("A", Some("colleagues".to_string()), &scope);
    assert_eq!(history.len(), 1);
    assert_eq!(history[0].from, "A");
    assert_eq!(history[0].to, "B");
    assert!(history[0].valid_until.is_some());

    assert_eq!(graph.query_as_of(before_creation, &scope).relations.len(), 0);
    let kg_after = graph.query_as_of(after_creation, &scope);
    assert_eq!(kg_after.relations.len(), 1);
    assert_eq!(kg_after.relations[0].from, "A");
    assert_eq!(graph.query_as_of(after_invalidation, &scope).relations.len(), 0);
}

#[test]
fn scopes_isolate_users() {
    let mut graph = GraphMemory::new();
    let alice = MemoryScope { user_id: Some("alice".to_string()), session_id: None, agent_id: None };
    let bob = MemoryScope { user_id: Some("bob".to_string()), session_id: None, agent_id: None };
    graph.create_entities(vec![person("Secret", "only alice")], &alice);
    assert_eq!(graph.read_graph(&alice).entities.len(), 1);
    assert!(graph.read_graph(&bob).entities.is_empty());
    assert_eq!(graph.read_graph(&MemoryScope::any()).entities.len(), 1);
}

#[test]
fn a_version_is_never_stored_twice() {
    let mut graph = GraphMemory::new();
    let scope = test_scope();
    graph.create_entities(vec![person("A", "x"), person("B", "y")], &scope);
    graph.create_entities(vec![person("A", "again")], &scope);
    assert_eq!(graph.node_rows().len(), 2);

    let rel = Relation { from: "A".to_string(), to: "B".to_string(), relation_type: "knows".to_string() };
    graph.create_relations_at(vec![rel.clone()], &scope, "2024-06-01T00:00:00Z").unwrap();
    graph.delete_relations_at(vec![rel.clone()], &scope, "2024-06-01T00:00:00Z");
    let again = graph.create_relations_at(vec![rel.clone()], &scope, "2024-06-01T00:00:00Z");
    assert!(matches!(again, Err(openmemory_rs::graph::GraphError::DuplicateVersion(_))));
    assert_eq!(graph.edge_rows().len(), 1);
    let later = graph.create_relations_at(vec![rel], &scope, "2024-06-01T00:00:01Z").unwrap();
    assert_eq!(later.len(), 1);
    assert_eq!(graph.edge_rows().len(), 2);
}

#[test]
fn deleting_observations_of_an_unknown_entity_fails() {
    let mut graph = GraphMemory::new();
    let scope = test_scope();
    graph.create_entities(vec![person("A", "Obs 1")], &scope);
    let del = |name: &str| openmemory_rs::graph::DeleteObservationsInput {
        entity_name: name.to_string(),
        observations: vec!["Obs 1".to_string()],
    };
    let r = graph.delete_observations(vec![del("A"), del("Ghost")], &scope);
    match r {
        Err(openmemory_rs::graph::GraphError::EntityNotFound(m)) => assert_eq!(m, "Entity with name Ghost not found in scope"),
        _ => panic!("expected EntityNotFound"),
    }
    assert_eq!(graph.open_nodes(vec!["A".to_string()], &scope).entities[0].observations, vec!["Obs 1".to_string()]);
    assert!(graph.delete_observations(vec![del("A")], &scope).is_ok());
    assert!(graph.open_nodes(vec!["A".to_string()], &scope).entities[0].observations.is_empty());
}
