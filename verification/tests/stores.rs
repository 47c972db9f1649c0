use openmemory_rs::semantic::match_query;
use openmemory_rs::codebase::{CodebaseMemory, CodeElement, CodeCall};
use openmemory_rs::episodic::{EpisodicMemory, ReflectionItem};
use openmemory_rs::scope::MemoryScope;

fn element(id: &str, file: &str, ty: &str, name: &str) -> CodeElement {
    CodeElement {
        id: id.to_string(), file_path: file.to_string(), element_type: ty.to_string(), name: name.to_string(),
        signature: format!("fn {}()", name), ast_json: None, parent_id: None, start_line: 1, end_line: 10,
    }
}

fn call(a: &str, b: &str) -> CodeCall {
    CodeCall { caller_id: a.to_string(), callee_id: b.to_string(), call_site: None }
}

#[test]
fn codebase_store_queries_and_impact() {
    let mut cb = CodebaseMemory::new();
    let scope = MemoryScope::default();
    cb.index_element(element("fn_a", "src/a.rs", "Function", "a"), &scope);
    cb.index_element(element("fn_b", "src/b.rs", "Function", "b"), &scope);
    cb.index_element(element("S", "src/a.rs", "Struct", "Session"), &scope);
    cb.index_call(call("fn_b", "fn_a"));
    cb.index_call(call("fn_b", "fn_a"));
    assert_eq!(cb.query_calls("", "").len(), 1);
    assert_eq!(cb.query_calls("fn_b", "").len(), 1);
    assert_eq!(cb.query_calls("", "fn_b").len(), 0);
    let in_a: Vec<String> = cb.query_elements("src/a.rs", "", &scope).iter().map(|e| e.id.clone()).collect();
    assert_eq!(in_a, vec!["fn_a", "S"]);
    let structs: Vec<String> = cb.query_elements("", "struct", &scope).iter().map(|e| e.id.clone()).collect();
    assert_eq!(structs, vec!["S"]);
    let report = cb.impact_analysis("fn_a", &scope).unwrap();
    assert_eq!(report.affected_symbols, vec!["fn_b"]);
    assert_eq!(report.max_depth, 1);
    cb.index_element(element("fn_a", "src/z.rs", "Function", "a2"), &scope);
    let ids: Vec<String> = cb.query_elements("", "", &scope).iter().map(|e| e.id.clone()).collect();
    assert_eq!(ids, vec!["fn_b", "S", "fn_a"]);
}

fn reflection(id: &str, task: &str, at: &str, root: Option<&str>) -> ReflectionItem {
    ReflectionItem {
        id: id.to_string(), task_description: task.to_string(), status: "Failed".to_string(), attempt_number: 1,
        steps_taken: String::new(), error_encountered: None, root_cause: root.map(|r| r.to_string()),
        solution_applied: None, reflection: "notes".to_string(), created_at: at.to_string(),
    }
}

#[test]
fn reflections_newest_first_and_scoped() {
    let mut ep = EpisodicMemory::new();
    let mine = MemoryScope::new(Some("u1".to_string()), None, None);
    let other = MemoryScope::new(Some("u2".to_string()), None, None);
    ep.log_reflection(reflection("r1", "Build the app", "2024-01-01", None), &mine);
    ep.log_reflection(reflection("r2", "Deploy", "2024-03-01", Some("BUILD cache stale")), &mine);
    ep.log_reflection(reflection("r3", "build docs", "2024-02-01", None), &other);
    let got: Vec<String> = ep.get_reflections("build", &mine).iter().map(|r| r.id.clone()).collect();
    assert_eq!(got, vec!["r2", "r1"]);
    let all: Vec<String> = ep.get_reflections("", &MemoryScope::default()).iter().map(|r| r.id.clone()).collect();
    assert_eq!(all, vec!["r2", "r3", "r1"]);
    ep.log_reflection(reflection("r1", "Rebuilt", "2024-04-01", None), &mine);
    let again: Vec<String> = ep.get_reflections("", &mine).iter().map(|r| r.id.clone()).collect();
    assert_eq!(again, vec!["r1", "r2"]);
}

#[test]
fn fts_match_query_terms() {
    assert_eq!(match_query("rust, fast-safe!"), Some("rust* fast* safe*".to_string()));
    assert_eq!(match_query("  ?! "), None);
}

#[test]
fn newer_tool_record_replaces_older() {
    assert_eq!(openmemory_rs::episodic::record_tool_counts(None, 3, 1), (3, 1));
    assert_eq!(openmemory_rs::episodic::record_tool_counts(Some((1, 1)), 2, 3), (2, 3));
}
