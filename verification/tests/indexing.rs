use openmemory_rs::codebase::{CodeElement, CodebaseMemory, SourceLanguage};
use openmemory_rs::scope::MemoryScope;

fn index(store: &mut CodebaseMemory, path: &str, content: &str, language: SourceLanguage) {
    for el in CodebaseMemory::index_source(path, Some(language), content) {
        store.index_element(el, &MemoryScope::default());
    }
}

fn has(els: &[CodeElement], ty: &str, name: &str) -> bool {
    els.iter().any(|e| e.element_type == ty && e.name == name)
}

#[test]
fn test_js_ts_indexing() {
    let mut store = CodebaseMemory::new();
    let js_content = r#"
class MyClass {
  myMethod() {
    return 42;
  }
}

function myFunction() {
  return "hello";
}
"#;
    let ts_content = r#"
interface MyInterface {
  foo: string;
}

type MyType = string | number;

enum MyEnum {
  ValA,
  ValB
}

class MyTSClass {
  tsMethod() {
    return 10;
  }
}
"#;
    index(&mut store, "test.js", js_content, SourceLanguage::JavaScript);
    index(&mut store, "test.ts", ts_content, SourceLanguage::TypeScript);

    let js_elements = store.query_elements("test.js", "", &MemoryScope::default());
    let ts_elements = store.query_elements("test.ts", "", &MemoryScope::default());

    assert!(has(&js_elements, "Class", "MyClass"), "Should index JS Class");
    assert!(has(&js_elements, "Method", "myMethod"), "Should index JS Method");
    assert!(has(&js_elements, "Function", "myFunction"), "Should index JS Function");

    assert!(has(&ts_elements, "Interface", "MyInterface"), "Should index TS Interface");
    assert!(has(&ts_elements, "TypeAlias", "MyType"), "Should index TS TypeAlias");
    assert!(has(&ts_elements, "Enum", "MyEnum"), "Should index TS Enum");
    assert!(has(&ts_elements, "Class", "MyTSClass"), "Should index TS Class");
    assert!(has(&ts_elements, "Method", "tsMethod"), "Should index TS Method");
}

#[test]
fn rust_items_nest_under_impl() {
    let mut store = CodebaseMemory::new();
    let src = "struct Point { x: i32 }\nimpl Point {\n    fn norm(&self) -> i32 { self.x }\n}\nfn main() {}\n";
    index(&mut store, "p.rs", src, SourceLanguage::Rust);
    let els = store.query_elements("p.rs", "", &MemoryScope::default());
    assert!(has(&els, "Struct", "Point"));
    assert!(has(&els, "ImplBlock", "impl Point"));
    assert!(has(&els, "Function", "main"));
    let method = els.iter().find(|e| e.name == "norm").unwrap();
    assert_eq!(method.element_type, "Method");
    assert_eq!(method.parent_id.as_deref(), Some("p.rs:impl Point:2"));
    assert_eq!(method.signature, "fn norm(&self) -> i32");
    assert_eq!((method.start_line, method.end_line), (3, 3));
}

#[test]
fn index_source_without_grammar_reads_lines() {
    let els = CodebaseMemory::index_source("m.go", None, "func main() {}\nstruct Point {\n");
    assert_eq!(els.len(), 1);
    assert_eq!((els[0].element_type.as_str(), els[0].name.as_str()), ("Struct", "Point"));
}
