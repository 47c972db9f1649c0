use openmemory_rs::codebase::{CodebaseMemory, CodeElement, SyntaxNode, decimal_string, starts_with};
use openmemory_rs::codebase::{is_indexed_extension, is_skipped_directory, language_of, SourceLanguage};

#[test]
fn fallback_recognises_declarations() {
    let src = "pub fn alpha(x: u32) -> u32 {\n  struct Beta {\nclass Gamma:\n    def delta(self):\nimpl Trait for Thing {\nenum Eps {\nlet x = 1;\n";
    let els = CodebaseMemory::parse_file_fallback("f.rs", src);
    let summary: Vec<(String, String, String, i64, i64)> = els.iter()
        .map(|e| (e.element_type.clone(), e.name.clone(), e.signature.clone(), e.start_line, e.end_line)).collect();
    assert_eq!(summary, vec![
        ("Function".to_string(), "alpha".to_string(), "pub fn alpha(...)".to_string(), 1, 6),
        ("Struct".to_string(), "Beta".to_string(), "struct Beta".to_string(), 2, 7),
        ("Class".to_string(), "Gamma".to_string(), "class Gamma".to_string(), 3, 8),
        ("Function".to_string(), "delta".to_string(), "def delta(...)".to_string(), 4, 9),
        ("ImplBlock".to_string(), "impl_Thing".to_string(), "impl Trait for Thing".to_string(), 5, 10),
        ("Enum".to_string(), "Eps".to_string(), "enum Eps".to_string(), 6, 11),
    ]);
    assert_eq!(els[0].id, "f.rs:alpha:1");
    assert_eq!(els[0].file_path, "f.rs");
    assert!(els.iter().all(|e| e.ast_json.is_none() && e.parent_id.is_none()));
}

#[test]
fn fallback_on_plain_text_finds_nothing() {
    assert!(CodebaseMemory::parse_file_fallback("notes.txt", "hello\nworld").is_empty());
    assert!(CodebaseMemory::parse_file_fallback("empty.rs", "").is_empty());
}

fn leaf(kind: &str, text: &str, row: u32) -> SyntaxNode {
    SyntaxNode { kind: kind.to_string(), start_row: row, end_row: row, text: Some(text.to_string()), sexp: format!("({})", kind), children: vec![] }
}

#[test]
fn tree_elements_in_preorder_with_parents() {
    let method = SyntaxNode {
        kind: "function_item".to_string(), start_row: 2, end_row: 4,
        text: Some("fn run(&self)\n  -> u32 {\n 1 }".to_string()), sexp: "(function_item)".to_string(),
        children: vec![leaf("identifier", "run", 2)],
    };
    let imp = SyntaxNode {
        kind: "impl_item".to_string(), start_row: 1, end_row: 5,
        text: Some("impl   Runner for X {\n fn run() {} }".to_string()), sexp: "(impl_item)".to_string(),
        children: vec![method],
    };
    let root = SyntaxNode {
        kind: "source_file".to_string(), start_row: 0, end_row: 6, text: None, sexp: "(source_file)".to_string(),
        children: vec![leaf("line_comment", "// hi", 0), imp],
    };
    let mut out: Vec<CodeElement> = Vec::new();
    CodebaseMemory::traverse_and_index("m.rs", &root, &None, &mut out);
    assert_eq!(out.len(), 2);
    assert_eq!(out[0].element_type, "ImplBlock");
    assert_eq!(out[0].name, "impl Runner for X");
    assert_eq!(out[0].id, "m.rs:impl Runner for X:2");
    assert_eq!(out[0].parent_id, None);
    assert_eq!(out[0].start_line, 2);
    assert_eq!(out[0].end_line, 6);
    assert_eq!(out[0].ast_json, Some("(impl_item)".to_string()));
    assert_eq!(out[1].element_type, "Method");
    assert_eq!(out[1].name, "run");
    assert_eq!(out[1].signature, "fn run(&self) -> u32");
    assert_eq!(out[1].parent_id, Some("m.rs:impl Runner for X:2".to_string()));
}

#[test]
fn python_signature_and_missing_name() {
    let f = SyntaxNode {
        kind: "function_definition".to_string(), start_row: 9, end_row: 10,
        text: Some("def go(a,\n   b): pass".to_string()), sexp: "(function_definition)".to_string(),
        children: vec![leaf("identifier", "go", 9)],
    };
    let anonymous = SyntaxNode {
        kind: "class_declaration".to_string(), start_row: 0, end_row: 0, text: Some("class {}".to_string()),
        sexp: "(class_declaration)".to_string(), children: vec![],
    };
    let mut out: Vec<CodeElement> = Vec::new();
    CodebaseMemory::traverse_and_index("p.py", &f, &None, &mut out);
    CodebaseMemory::traverse_and_index("p.py", &anonymous, &None, &mut out);
    assert_eq!(out.len(), 1);
    assert_eq!(out[0].element_type, "Function");
    assert_eq!(out[0].signature, "def go(a, b)");
    assert_eq!(out[0].id, "p.py:go:10");
}

#[test]
fn decimal_and_prefix_helpers() {
    assert_eq!(decimal_string(0), "0");
    assert_eq!(decimal_string(1203), "1203");
    assert!(starts_with("pub fn x", "pub fn "));
    assert!(!starts_with("fn", "fn "));
}

#[test]
fn scan_rules_by_extension_and_directory() {
    assert_eq!(language_of("rs"), Some(SourceLanguage::Rust));
    assert_eq!(language_of("jsx"), Some(SourceLanguage::JavaScript));
    assert_eq!(language_of("tsx"), Some(SourceLanguage::Tsx));
    assert_eq!(language_of("go"), None);
    assert!(is_indexed_extension("go") && is_indexed_extension("py"));
    assert!(!is_indexed_extension("md"));
    assert!(is_skipped_directory("node_modules") && is_skipped_directory(".git"));
    assert!(!is_skipped_directory("src"));
}
