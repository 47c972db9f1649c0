use openmemory_rs::scope::MemoryScope;
use openmemory_rs::working::{WorkingMemory, get_scoped_key};

#[test]
fn working_memory_set_then_get() {
    let mut wm = WorkingMemory::new(300);
    let scope = MemoryScope::any();
    wm.set_at("k", "v", None, &scope, 1000);
    assert_eq!(wm.get_at("k", &scope, 1001), Some("v".to_string()));
}

#[test]
fn scoped_key_format() {
    let scope = MemoryScope::new(Some("u".to_string()), None, Some("a".to_string()));
    assert_eq!(get_scoped_key("k", &scope), "u:*:a:k");
}

#[test]
fn entries_expire_after_ttl() {
    let mut wm = WorkingMemory::new(10);
    let scope = MemoryScope::any();
    wm.set_at("k", "v", Some(5), &scope, 100);
    assert_eq!(wm.get_at("k", &scope, 104), Some("v".to_string()));
    assert_eq!(wm.get_at("k", &scope, 105), None);
    assert_eq!(wm.get_at("k", &scope, 104), None);
}

#[test]
fn keys_are_separated_by_scope() {
    let mut wm = WorkingMemory::new(10);
    let a = MemoryScope::new(Some("u1".to_string()), None, None);
    let b = MemoryScope::new(Some("u2".to_string()), None, None);
    wm.set_at("k", "one", None, &a, 0);
    wm.set_at("k", "two", None, &b, 0);
    assert_eq!(wm.get_at("k", &a, 1), Some("one".to_string()));
    assert_eq!(wm.get_at("k", &b, 1), Some("two".to_string()));
}

#[test]
fn eviction_counts_the_expired_entries() {
    let mut wm = WorkingMemory::new(10);
    let scope = MemoryScope::any();
    wm.set_at("a", "1", Some(5), &scope, 100);
    wm.set_at("b", "2", Some(50), &scope, 100);
    wm.set_at("c", "3", Some(3), &scope, 100);
    let report = wm.evict_expired_at(106);
    assert_eq!(report.evicted_count, 2);
    assert_eq!(report.evicted.len(), 2);
    assert_eq!(wm.get_at("b", &scope, 106), Some("2".to_string()));
    assert_eq!(wm.evict_expired_at(107).evicted_count, 0);
}

#[test]
fn promotion_removes_the_entry_and_gives_its_text() {
    let mut wm = WorkingMemory::new(10);
    let scope = MemoryScope::any();
    assert_eq!(wm.promote_to_semantic("k", &scope), None);
    wm.set_at("k", "v", None, &scope, 0);
    wm.set_at("j", "w", None, &scope, 0);
    assert_eq!(wm.promote_to_semantic("k", &scope), Some("Ephemeral working memory under key 'k' was promoted: v".to_string()));
    assert_eq!(wm.get_at("k", &scope, 1), None);
    assert_eq!(wm.get_at("j", &scope, 1), Some("w".to_string()));
    assert_eq!(wm.promote_to_semantic("k", &scope), None);
}
