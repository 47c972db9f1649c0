use openmemory_rs::compressor::ContextCompressor;

#[test]
fn test_stop_words_list() {
    let compressor = ContextCompressor::new();
    assert!(compressor.is_stop_word("the"));
    assert!(compressor.is_stop_word("about"));
    assert!(compressor.is_stop_word("wouldnt"));
    assert!(!compressor.is_stop_word("rust"));
    assert!(!compressor.is_stop_word("compression"));
}

#[test]
fn test_stemming() {
    let compressor = ContextCompressor::new();
    assert_eq!(compressor.stem_word("connecting"), Some("connect".to_string()));
    assert_eq!(compressor.stem_word("connections"), Some("connect".to_string()));
    assert_eq!(compressor.stem_word("the"), None);
    assert_eq!(compressor.stem_word("compilers!"), Some("compil".to_string()));
}

#[test]
fn stats_count_terms_and_documents() {
    let compressor = ContextCompressor::new();
    let stats = compressor.sentence_stats("Databases store data. Data matters. The end.");
    assert_eq!(stats.sentences.len(), 3);
    assert_eq!(stats.word_counts, vec![3, 2, 2]);
    assert_eq!(stats.terms[0], vec![("databas".to_string(), 1), ("store".to_string(), 1), ("data".to_string(), 1)]);
    assert_eq!(stats.terms[1], vec![("data".to_string(), 1), ("matter".to_string(), 1)]);
    assert_eq!(stats.terms[2], vec![("end".to_string(), 1)]);
    assert!(stats.document_frequencies.contains(&("data".to_string(), 2)));
    assert!(stats.document_frequencies.contains(&("end".to_string(), 1)));
}

#[test]
fn empty_text_has_no_sentences() {
    let compressor = ContextCompressor::new();
    let stats = compressor.sentence_stats("   ");
    assert!(stats.sentences.is_empty());
    assert!(stats.document_frequencies.is_empty());
}

#[test]
fn reconstruct_keeps_best_in_document_order() {
    let compressor = ContextCompressor::new();
    let sentences = vec!["First. ".to_string(), "Second. ".to_string(), "Third.".to_string(), "Fourth.".to_string()];
    let out = compressor.reconstruct(&sentences, &vec![2, 0, 3, 1], 2);
    assert_eq!(out, "First. Third.");
    assert_eq!(compressor.reconstruct(&sentences, &vec![2, 0, 3, 1], 0), "");
    assert_eq!(compressor.reconstruct(&sentences, &vec![2, 0, 3, 1], 10), "First. Second. Third. Fourth.");
}
