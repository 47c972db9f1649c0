use openmemory_rs::community::{detect_communities, communities_from_components};
use openmemory_rs::graph::{Entity, GraphMemory, Relation};
use openmemory_rs::scope::MemoryScope;

fn person(name: &str, obs: &str) -> Entity {
    Entity { name: name.to_string(), entity_type: "Person".to_string(), observations: vec![obs.to_string()] }
}

#[test]
fn test_community_detection() {
    let mut graph = GraphMemory::new();
    let scope = MemoryScope::default();
    graph.create_entities(vec![person("A", "A lives in NY"), person("B", "B lives in NY"), person("C", "C lives in SF")], &scope);
    graph.create_relations(vec![Relation { from: "A".to_string(), to: "B".to_string(), relation_type: "friend".to_string() }], &scope).unwrap();
    let comms = detect_communities(&graph, &scope);
    assert_eq!(comms.len(), 2);
    let has_ab = comms.iter().any(|c| c.members.contains(&"A".to_string()) && c.members.contains(&"B".to_string()));
    assert!(has_ab);
}

#[test]
fn community_summaries() {
    let entities = vec![
        Entity { name: "B".to_string(), entity_type: "Person".to_string(), observations: vec!["b1".to_string()] },
        Entity { name: "A".to_string(), entity_type: "Person".to_string(), observations: vec!["a1".to_string(), "a2".to_string()] },
        Entity { name: "C".to_string(), entity_type: "Person".to_string(), observations: vec![] },
    ];
    let comps = vec![vec![0, 1], vec![2]];
    let comms = communities_from_components(&entities, &comps);
    assert_eq!(comms.len(), 2);
    assert_eq!(comms[0].id, 0);
    assert_eq!(comms[0].members, vec!["A", "B"]);
    assert_eq!(comms[0].summary, "Community of 2 entities (A, B). Observations: a1; a2; b1");
    assert_eq!(comms[1].id, 1);
    assert_eq!(comms[1].summary, "Community of 1 entities (C) with no observations.");
}
