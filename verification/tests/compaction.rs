use openmemory_rs::compaction::{MemoryCompactor, CompactFact};
use openmemory_rs::graph::{Entity, GraphMemory, Relation};
use openmemory_rs::scope::MemoryScope;

fn f(id: &str, text: &str, imp: u32) -> CompactFact {
    CompactFact { node_id: id.to_string(), raw_text: text.to_string(), importance_ppm: imp }
}

#[test]
fn clusters_merge_into_most_important() {
    let facts = vec![
        f("fact-1", "I hate vegetables", 10_000),
        f("fact-3", "Aswin is a Rust engineer", 800_000),
        f("fact-4", "Aswin works with Rust code", 900_000),
    ];
    let mut sim = vec![vec![false; 3]; 3];
    sim[1][2] = true;
    let plans = MemoryCompactor::plan_clusters(&facts, &sim);
    assert_eq!(plans.len(), 1);
    assert_eq!(plans[0].winner, 2);
    assert_eq!(plans[0].losers, vec![1]);
    assert_eq!(plans[0].merged_text, "Aswin works with Rust code");
    let notes = MemoryCompactor::consolidation_notes(&facts, &plans[0]);
    assert_eq!(notes, vec!["Consolidated fact 'fact-3' into winner 'fact-4'"]);
}

#[test]
fn no_cluster_without_similarity() {
    let facts = vec![f("a", "x", 0), f("b", "y", 0)];
    let sim = vec![vec![false; 2]; 2];
    assert!(MemoryCompactor::plan_clusters(&facts, &sim).is_empty());
}

#[test]
fn first_member_wins_without_importance() {
    let facts = vec![f("a", "short", 0), f("b", "a longer text", 0), f("c", "mid text", 0)];
    let sim = vec![vec![true; 3]; 3];
    let plans = MemoryCompactor::plan_clusters(&facts, &sim);
    assert_eq!(plans.len(), 1);
    assert_eq!(plans[0].winner, 0);
    assert_eq!(plans[0].losers, vec![1, 2]);
    assert_eq!(plans[0].merged_text, "a longer text");
}

#[test]
fn edge_count_counts_mentioned_entities() {
    let mut graph = GraphMemory::new();
    let scope = MemoryScope::default();
    graph.create_entities(vec![
        Entity { name: "Rust".to_string(), entity_type: "Language".to_string(), observations: vec![] },
        Entity { name: "Cargo".to_string(), entity_type: "Tool".to_string(), observations: vec![] },
    ], &scope);
    graph.create_relations(vec![
        Relation { from: "Cargo".to_string(), to: "Rust".to_string(), relation_type: "builds".to_string() },
        Relation { from: "Rust".to_string(), to: "LLVM".to_string(), relation_type: "uses".to_string() },
    ], &scope).unwrap();
    assert_eq!(MemoryCompactor::edge_count(&graph, "I like rust", &scope), 2);
    assert_eq!(MemoryCompactor::edge_count(&graph, "rust and cargo", &scope), 3);
    assert_eq!(MemoryCompactor::edge_count(&graph, "nothing here", &scope), 0);
}

#[test]
fn no_fact_is_consolidated_twice() {
    let facts = vec![f("a", "short", 100_000), f("b", "the longest text", 900_000), f("c", "middle text", 500_000)];
    let mut sim = vec![vec![false; 3]; 3];
    sim[0][1] = true;
    sim[1][2] = true;
    let plans = MemoryCompactor::plan_clusters(&facts, &sim);
    assert_eq!(plans.len(), 2);
    assert_eq!((plans[0].winner, plans[0].losers.clone()), (1, vec![0]));
    assert_eq!((plans[1].winner, plans[1].losers.clone()), (1, vec![2]));
    let mut losers: Vec<usize> = plans.iter().flat_map(|p| p.losers.clone()).collect();
    losers.sort();
    losers.dedup();
    assert_eq!(losers.len(), 2);
    assert!(plans.iter().all(|p| !losers.contains(&p.winner)));
}

#[test]
fn only_a_live_rewrite_of_the_winner_restarts_clustering() {
    let facts = vec![f("a", "short", 0), f("b", "a longer text", 0)];
    let mut sim = vec![vec![false; 2]; 2];
    sim[0][1] = true;
    let plans = MemoryCompactor::plan_clusters(&facts, &sim);
    assert_eq!(plans.len(), 1);
    let changed = plans[0].merged_text != facts[plans[0].winner].raw_text;
    assert_eq!(MemoryCompactor::rewrites_winner(&facts, &plans[0], false), changed);
    assert!(!MemoryCompactor::rewrites_winner(&facts, &plans[0], true));
    let same = openmemory_rs::compaction::ClusterPlan { winner: 1, losers: vec![0], merged_text: "a longer text".to_string() };
    assert!(!MemoryCompactor::rewrites_winner(&facts, &same, false));
    let other = openmemory_rs::compaction::ClusterPlan { winner: 0, losers: vec![1], merged_text: "short; a longer text".to_string() };
    assert!(MemoryCompactor::rewrites_winner(&facts, &other, false));
}
