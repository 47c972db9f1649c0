use openmemory_rs::shared::{SharedMemory, SharedRow};
use openmemory_rs::scope::{MemoryScope, RowScope};

#[test]
fn targets_round_trip() {
    let targets = vec!["agent-1".to_string(), "a \"quoted\" one".to_string()];
    let stored = SharedMemory::targets_json(&targets);
    assert_eq!(stored, "[\"agent-1\",\"a \\\"quoted\\\" one\"]");
    assert_eq!(SharedMemory::targets_of(&stored), targets);
    assert!(SharedMemory::targets_of("not json").is_empty());
}

#[test]
fn visibility_rules() {
    let targets = vec!["b".to_string()];
    assert!(SharedMemory::visible_to("", "a", &targets));
    assert!(SharedMemory::visible_to("b", "a", &targets));
    assert!(SharedMemory::visible_to("a", "a", &targets));
    assert!(!SharedMemory::visible_to("c", "a", &targets));
    assert!(SharedMemory::visible_to("c", "a", &vec!["*".to_string()]));
}

fn shared_row(user: &str, source: &str, targets: &str) -> SharedRow {
    SharedRow {
        owner: RowScope { user_id: user.to_string(), session_id: "*".to_string(), agent_id: "*".to_string() },
        source_agent: source.to_string(),
        targets_text: targets.to_string(),
    }
}

#[test]
fn retrieval_keeps_readable_rows_in_order() {
    let rows = vec![
        shared_row("u1", "a", "[\"b\"]"),
        shared_row("u2", "a", "[\"b\"]"),
        shared_row("u1", "c", "[\"d\"]"),
        shared_row("u1", "c", "not json"),
        shared_row("*", "c", "[\"*\"]"),
    ];
    let scope = MemoryScope::new(Some("u1".to_string()), None, None);
    let kept = SharedMemory::retrieve("b", &scope, &rows);
    let positions: Vec<usize> = kept.iter().map(|k| k.0).collect();
    assert_eq!(positions, vec![0, 4]);
    assert_eq!(kept[0].1, vec!["b".to_string()]);
    assert_eq!(kept[1].1, vec!["*".to_string()]);
    let everyone = SharedMemory::retrieve("", &scope, &rows);
    assert_eq!(everyone.iter().map(|k| k.0).collect::<Vec<usize>>(), vec![0, 2, 3, 4]);
    assert!(everyone[2].1.is_empty());
}
