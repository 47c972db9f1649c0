use openmemory_rs::extraction::{ExtractedFact, FactExtractor, is_valid_entity};

fn fact(from: &str, relation: &str, to: &str) -> ExtractedFact {
    ExtractedFact { from: from.to_string(), relation: relation.to_string(), to: to.to_string() }
}

#[test]
fn test_fact_extraction() {
    let extractor = FactExtractor::new();

    let text1 = "Alice uses Rust. Bob is using Python.";
    let facts1 = extractor.extract(text1);
    assert_eq!(facts1.len(), 2);
    assert_eq!(facts1[0], ExtractedFact { from: "Alice".to_string(), relation: "uses".to_string(), to: "Rust".to_string() });
    assert_eq!(facts1[1], ExtractedFact { from: "Bob".to_string(), relation: "uses".to_string(), to: "Python".to_string() });

    let text2 = "openmemory_rs depends on SQLite. This engine requires tokio.";
    let facts2 = extractor.extract(text2);
    assert_eq!(facts2.len(), 1);
    assert_eq!(facts2[0], ExtractedFact { from: "openmemory_rs".to_string(), relation: "depends_on".to_string(), to: "SQLite".to_string() });

    let text3 = "Charlie prefers Neovim. Dave likes VSCode. Eve favours Emacs.";
    let facts3 = extractor.extract(text3);
    assert_eq!(facts3.len(), 3);
    assert_eq!(facts3[0], ExtractedFact { from: "Charlie".to_string(), relation: "prefers".to_string(), to: "Neovim".to_string() });
    assert_eq!(facts3[1], ExtractedFact { from: "Dave".to_string(), relation: "prefers".to_string(), to: "VSCode".to_string() });
    assert_eq!(facts3[2], ExtractedFact { from: "Eve".to_string(), relation: "prefers".to_string(), to: "Emacs".to_string() });

    let text4 = "Rust is a language. Python is an interpreter. sqlite is the database.";
    let facts4 = extractor.extract(text4);
    assert_eq!(facts4.len(), 0);

    let text4_custom = "Alice is a Developer. Python is an Interpreter.";
    let facts4_custom = extractor.extract(text4_custom);
    assert_eq!(facts4_custom.len(), 2);
    assert!(facts4_custom.contains(&ExtractedFact { from: "Alice".to_string(), relation: "is_a".to_string(), to: "Developer".to_string() }));

    let text5 = "Alice works with Bob. Charlie works on compiler. Dave works at Google.";
    let facts5 = extractor.extract(text5);
    assert_eq!(facts5.len(), 2);
    assert!(facts5.contains(&ExtractedFact { from: "Alice".to_string(), relation: "works_with".to_string(), to: "Bob".to_string() }));
    assert!(facts5.contains(&ExtractedFact { from: "Dave".to_string(), relation: "works_with".to_string(), to: "Google".to_string() }));

    let text6 = "Satoshi created Bitcoin. Torvalds built Linux. Shakespeare wrote Hamlet.";
    let facts6 = extractor.extract(text6);
    assert_eq!(facts6.len(), 3);
    assert_eq!(facts6[0], ExtractedFact { from: "Satoshi".to_string(), relation: "created".to_string(), to: "Bitcoin".to_string() });
    assert_eq!(facts6[1], ExtractedFact { from: "Torvalds".to_string(), relation: "created".to_string(), to: "Linux".to_string() });
    assert_eq!(facts6[2], ExtractedFact { from: "Shakespeare".to_string(), relation: "created".to_string(), to: "Hamlet".to_string() });

    let text7 = "He prefers Rust. She prefers Python. It uses postgres.";
    let facts7 = extractor.extract(text7);
    assert_eq!(facts7.len(), 0);
}

#[test]
fn entity_validity_rules() {
    assert!(is_valid_entity("Rust"));
    assert!(!is_valid_entity(""));
    assert!(!is_valid_entity("the"));
    assert!(!is_valid_entity("The"));
    assert!(!is_valid_entity("engine"));
    assert!(is_valid_entity("Engine"));
}

#[test]
fn captures_filtered_by_entity_rules() {
    let caps = vec![
        ("Alice".to_string(), "Rust".to_string()),
        ("He".to_string(), "Rust".to_string()),
        ("Bob".to_string(), "compiler".to_string()),
        ("Bob".to_string(), "Compiler".to_string()),
    ];
    let facts = FactExtractor::facts_from_captures(&caps, "uses");
    assert_eq!(facts, vec![fact("Alice", "uses", "Rust"), fact("Bob", "uses", "Compiler")]);
}

#[test]
fn sentences_are_processed_in_order() {
    let extractor = FactExtractor::new();
    let sentences = vec!["Torvalds built Linux.".to_string(), "Alice uses Rust.".to_string()];
    let facts = extractor.extract_sentences(&sentences);
    assert_eq!(facts, vec![fact("Torvalds", "created", "Linux"), fact("Alice", "uses", "Rust")]);
}
