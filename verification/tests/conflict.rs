use openmemory_rs::conflict::{ConflictResolver, FactRecord};
use openmemory_rs::graph::{Entity, GraphMemory, Relation};
use openmemory_rs::scope::MemoryScope;

fn thing(name: &str, ty: &str) -> Entity {
    Entity { name: name.to_string(), entity_type: ty.to_string(), observations: vec![] }
}

fn lives_in(to: &str) -> Relation {
    Relation { from: "A".to_string(), to: to.to_string(), relation_type: "lives_in".to_string() }
}

#[test]
fn test_graph_conflict_detection_and_resolution() {
    let mut graph = GraphMemory::new();
    let scope = MemoryScope::default();
    graph.create_entities(vec![thing("A", "Person"), thing("NY", "City"), thing("LA", "City")], &scope);
    graph.create_relations_at(vec![lives_in("NY")], &scope, "2024-01-01T00:00:00Z").unwrap();
    graph.create_relations_at(vec![lives_in("LA")], &scope, "2024-01-01T00:00:01Z").unwrap();
    let exclusive = vec!["lives_in".to_string()];

    let report_dry = ConflictResolver::resolve_graph_conflicts_at(&mut graph, &exclusive, "recency", true, &scope, "2024-01-02T00:00:00Z");
    assert_eq!(report_dry.conflicts.len(), 1);
    assert_eq!(report_dry.resolutions_applied.len(), 1);
    assert!(!report_dry.resolutions_applied[0].resolved);
    assert_eq!(graph.read_graph(&scope).relations.len(), 2);

    let report_live = ConflictResolver::resolve_graph_conflicts_at(&mut graph, &exclusive, "recency", false, &scope, "2024-01-02T00:00:00Z");
    assert_eq!(report_live.conflicts.len(), 1);
    assert!(report_live.resolutions_applied[0].resolved);
    assert_eq!(report_live.conflicts[0].id, report_live.resolutions_applied[0].conflict_id);

    let active = graph.read_graph(&scope);
    assert_eq!(active.relations.len(), 1);
    assert_eq!(active.relations[0].to, "LA");

    let d = &report_live.conflicts[0].details;
    assert_eq!(d.existing_target, "NY");
    assert_eq!(d.new_target, "LA");
    assert_eq!(d.existing_edge_key, "A-NY-lives_in");
    let a = &report_live.resolutions_applied[0];
    assert_eq!(a.winner_id, "A-LA-lives_in");
    assert_eq!(a.loser_id, "A-NY-lives_in");
    assert_eq!(a.action_taken, "Resolved graph conflict for A(lives_in): LA (valid: 2024-01-01T00:00:01Z) wins over NY (valid: 2024-01-01T00:00:00Z)");

    let again = ConflictResolver::resolve_graph_conflicts_at(&mut graph, &exclusive, "recency", false, &scope, "2024-01-03T00:00:00Z");
    assert!(again.conflicts.is_empty());
}

#[test]
fn non_exclusive_relations_do_not_conflict() {
    let mut graph = GraphMemory::new();
    let scope = MemoryScope::default();
    graph.create_relations_at(vec![lives_in("NY"), lives_in("LA")], &scope, "2024-01-01T00:00:00Z").unwrap();
    let report = ConflictResolver::resolve_graph_conflicts_at(&mut graph, &vec!["spouse".to_string()], "recency", false, &scope, "2024-01-02T00:00:00Z");
    assert!(report.conflicts.is_empty());
    assert_eq!(graph.read_graph(&scope).relations.len(), 2);
}

fn fact(id: &str, from: &str, importance_ppm: u32) -> FactRecord {
    FactRecord { node_id: id.to_string(), raw_text: id.to_string(), valid_from: from.to_string(), importance_ppm }
}

#[test]
fn semantic_pairings_by_recency_and_importance() {
    let facts = vec![fact("fact-1", "2024-01-01T00:00:00Z", 900_000), fact("fact-2", "2024-01-01T00:00:01Z", 900_000)];
    let similar = vec![vec![false, true], vec![true, false]];
    let ps = ConflictResolver::semantic_pairings(&facts, &similar, "recency");
    assert_eq!(ps.len(), 1);
    assert_eq!((ps[0].first, ps[0].second, ps[0].winner, ps[0].loser), (0, 1, 1, 0));

    let facts = vec![fact("x", "2024-01-01T00:00:00Z", 900_000), fact("y", "2024-01-02T00:00:00Z", 100_000), fact("z", "2024-01-03T00:00:00Z", 50_000)];
    let all = vec![vec![true; 3]; 3];
    let ps = ConflictResolver::semantic_pairings(&facts, &all, "importance");
    assert_eq!(ps.len(), 2);
    assert_eq!((ps[0].winner, ps[0].loser), (0, 1));
    assert_eq!((ps[1].first, ps[1].second, ps[1].winner, ps[1].loser), (0, 2, 0, 2));
    let ps = ConflictResolver::semantic_pairings(&facts, &all, "recency");
    assert_eq!(ps.len(), 2);
    assert_eq!((ps[0].winner, ps[0].loser), (1, 0));
    assert_eq!((ps[1].first, ps[1].second, ps[1].winner, ps[1].loser), (1, 2, 2, 1));
}

#[test]
fn resolution_leaves_one_target_per_group() {
    let mut graph = GraphMemory::new();
    let scope = MemoryScope::default();
    graph.create_relations_at(vec![lives_in("NY")], &scope, "2024-01-01T00:00:00Z").unwrap();
    graph.create_relations_at(vec![lives_in("LA")], &scope, "2024-01-01T00:00:02Z").unwrap();
    graph.create_relations_at(vec![lives_in("SF")], &scope, "2024-01-01T00:00:01Z").unwrap();
    let exclusive = vec!["lives_in".to_string()];
    let report = ConflictResolver::resolve_graph_conflicts_at(&mut graph, &exclusive, "confidence", false, &scope, "2024-01-02T00:00:00Z");
    assert_eq!(report.conflicts.len(), 3);
    let active = graph.read_graph(&scope);
    assert_eq!(active.relations.len(), 1);
    assert_eq!(active.relations[0].to, "LA");
}

#[test]
fn test_semantic_conflict_detection_and_resolution() {
    let facts = vec![
        FactRecord { node_id: "fact-1".to_string(), raw_text: "Aswin lives in San Francisco".to_string(), valid_from: "2024-01-01T00:00:00Z".to_string(), importance_ppm: 900_000 },
        FactRecord { node_id: "fact-2".to_string(), raw_text: "Aswin resides in San Francisco city".to_string(), valid_from: "2024-01-01T00:00:01Z".to_string(), importance_ppm: 900_000 },
    ];
    // the two embeddings are at least 0.85 similar
    let similar = vec![vec![false, true], vec![false, false]];
    let pairings = ConflictResolver::semantic_pairings(&facts, &similar, "recency");
    assert_eq!(pairings.len(), 1);
    assert_eq!(facts[pairings[0].winner].node_id, "fact-2");
    assert_eq!(facts[pairings[0].loser].node_id, "fact-1");
}

#[test]
fn recency_keeps_the_latest_start_whatever_the_insertion_order() {
    let mut graph = GraphMemory::new();
    let scope = MemoryScope::default();
    graph.create_relations_at(vec![lives_in("NY")], &scope, "2024-01-01T00:00:05Z").unwrap();
    graph.create_relations_at(vec![lives_in("LA")], &scope, "2024-01-01T00:00:01Z").unwrap();
    let exclusive = vec!["lives_in".to_string()];
    let report = ConflictResolver::resolve_graph_conflicts_at(&mut graph, &exclusive, "recency", false, &scope, "2024-01-02T00:00:00Z");
    assert_eq!(report.resolutions_applied.len(), 1);
    assert_eq!(report.resolutions_applied[0].winner_id, "A-NY-lives_in");
    assert_eq!(report.resolutions_applied[0].loser_id, "A-LA-lives_in");
    let active = graph.read_graph(&scope);
    assert_eq!(active.relations.len(), 1);
    assert_eq!(active.relations[0].to, "NY");
}
