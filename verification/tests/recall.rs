use openmemory_rs::episodic::{EpisodicMemory, ReflectionItem};
use openmemory_rs::fusion::{RecallEngine, SemanticHit, MetaValue};
use openmemory_rs::graph::{Entity, GraphMemory, Relation};
use openmemory_rs::recall::extract_keywords;
use openmemory_rs::scope::MemoryScope;

fn setup() -> (GraphMemory, MemoryScope, Vec<SemanticHit>, EpisodicMemory) {
    let mut graph = GraphMemory::new();
    let scope = MemoryScope::default();
    graph.create_entities(vec![
        Entity { name: "Rust".to_string(), entity_type: "Language".to_string(), observations: vec!["Supports memory safety without GC".to_string()] },
        Entity { name: "Compiler".to_string(), entity_type: "Tool".to_string(), observations: vec!["Translates Rust code to machine instructions".to_string()] },
    ], &scope);
    graph.create_relations(vec![Relation { from: "Rust".to_string(), to: "Compiler".to_string(), relation_type: "compiled_by".to_string() }], &scope).unwrap();
    let hits = vec![SemanticHit {
        node_id: "node-1".to_string(),
        raw_text: "Rust compiler is very fast and safe.".to_string(),
        similarity_ppm: 700_000,
        timestamp: "2024-01-01T00:00:00Z".to_string(),
        importance_ppm: 900_000,
    }];
    let refl = ReflectionItem {
        id: "ref-1".to_string(),
        task_description: "Compile a rust application".to_string(),
        status: "Success".to_string(),
        attempt_number: 1,
        steps_taken: "Ran cargo build --release".to_string(),
        error_encountered: None,
        root_cause: None,
        solution_applied: None,
        reflection: "Using the compiler was extremely fast.".to_string(),
        created_at: "2024-01-01T00:00:00Z".to_string(),
    };
    let mut episodic = EpisodicMemory::new();
    episodic.log_reflection(refl, &scope);
    (graph, scope, hits, episodic)
}

#[test]
fn test_proactive_recall_fused() {
    let (graph, scope, hits, episodic) = setup();
    let results = RecallEngine::recall(&hits, &graph, &episodic, "rust compiler", 10, &scope);
    assert!(!results.is_empty(), "Should return recalled items");
    assert!(results.iter().any(|item| item.layer.contains("semantic")));
    assert!(results.iter().any(|item| item.layer.contains("graph")));
    assert!(results.iter().any(|item| item.layer.contains("episodic")));
    for i in 0..results.len() - 1 {
        assert!(results[i].confidence_ppm >= results[i + 1].confidence_ppm);
    }
    for item in &results {
        assert!(item.confidence_ppm <= 1_000_000);
    }
}

#[test]
fn recall_items_and_confidences() {
    let (graph, scope, hits, episodic) = setup();
    let results = RecallEngine::recall(&hits, &graph, &episodic, "rust compiler", 10, &scope);
    let rel = results.iter().find(|i| i.content == "Relation: Rust - compiled_by - Compiler").unwrap();
    assert_eq!(rel.layer, "graph");
    let ent = results.iter().find(|i| i.content.starts_with("Entity: Rust (Language)")).unwrap();
    assert_eq!(ent.content, "Entity: Rust (Language) - Observations: Supports memory safety without GC");
    let refl = results.iter().find(|i| i.layer == "episodic").unwrap();
    assert_eq!(refl.content, "Reflection on 'Compile a rust application' (Status: Success): Using the compiler was extremely fast. | Root Cause: None | Solution: None");
    assert!(refl.metadata.iter().any(|(k, v)| k == "attemptNumber" && matches!(v, MetaValue::Number(1))));
    let sem = results.iter().find(|i| i.layer == "semantic").unwrap();
    assert!(sem.confidence_ppm >= 700_000);
    assert!(results.len() <= 10);
    let top = RecallEngine::recall(&hits, &graph, &episodic, "rust compiler", 2, &scope);
    assert_eq!(top.len(), 2);
}

#[test]
fn blank_context_ignores_semantic_hits() {
    let (graph, scope, hits, episodic) = setup();
    let results = RecallEngine::recall(&hits, &graph, &episodic, "   ", 10, &scope);
    assert!(results.iter().all(|i| !i.layer.contains("semantic")));
}

#[test]
fn identical_texts_merge_across_layers() {
    let graph = GraphMemory::new();
    let scope = MemoryScope::default();
    let hit = |id: &str, text: &str, sim: u32| SemanticHit {
        node_id: id.to_string(), raw_text: text.to_string(), similarity_ppm: sim, timestamp: "t".to_string(), importance_ppm: 0,
    };
    let hits = vec![hit("a", "Same text", 400_000), hit("b", "  same TEXT ", 600_000)];
    let results = RecallEngine::recall(&hits, &graph, &EpisodicMemory::new(), "anything", 10, &scope);
    assert_eq!(results.len(), 1);
    assert_eq!(results[0].content, "Same text");
    assert_eq!(results[0].confidence_ppm, 750_000);
    assert_eq!(results[0].layer, "semantic");
    assert!(results[0].metadata.iter().any(|(k, v)| k == "nodeId" && matches!(v, MetaValue::Text(s) if s == "b")));
}

#[test]
fn keywords_drop_stop_words_and_repeats() {
    assert_eq!(extract_keywords("The Rust compiler, the RUST compiler!"), vec!["rust", "compiler"]);
    assert!(extract_keywords("a an it").is_empty());
}

#[test]
fn layers_of_merged_items_are_listed_once_each() {
    let (graph, scope, _, episodic) = setup();
    let text = "Entity: Rust (Language) - Observations: Supports memory safety without GC";
    let hits = vec![
        SemanticHit { node_id: "n1".to_string(), raw_text: text.to_string(), similarity_ppm: 500_000, timestamp: "t".to_string(), importance_ppm: 0 },
        SemanticHit { node_id: "n2".to_string(), raw_text: text.to_lowercase(), similarity_ppm: 300_000, timestamp: "t".to_string(), importance_ppm: 0 },
    ];
    let results = RecallEngine::recall(&hits, &graph, &episodic, "rust compiler", 10, &scope);
    let merged = results.iter().find(|i| i.content == text).unwrap();
    assert_eq!(merged.layer, "semantic,graph");
    for item in &results {
        let names: Vec<&str> = item.layer.split(',').collect();
        for (i, n) in names.iter().enumerate() {
            assert!(["semantic", "graph", "episodic"].contains(n));
            assert!(!names[..i].contains(n));
        }
    }
}

#[test]
fn blank_context_recalls_nothing() {
    let (graph, scope, hits, episodic) = setup();
    assert!(RecallEngine::recall(&hits, &graph, &episodic, "", 10, &scope).is_empty());
    assert!(RecallEngine::recall(&hits, &graph, &episodic, " \t\n ", 10, &scope).is_empty());
}
