//! Changing, removing, pruning and consolidating memories.
use icm_store::error::IcmError;
use icm_store::memory::{Importance, Memory, MAX_SUMMARY_BYTES};
use icm_store::store::SqliteStore;

fn test_store() -> SqliteStore {
    SqliteStore::in_memory().unwrap()
}

fn make_memory(topic: &str, summary: &str) -> Memory {
    Memory::new(topic.into(), summary.into(), Importance::Medium)
}

#[test]
fn test_update() {
    let mut store = test_store();
    let mut mem = make_memory("test", "original");
    let id = mem.id.clone();
    store.store(mem.clone()).unwrap();

    mem.summary = "updated".into();
    store.update(&mem).unwrap();

    let retrieved = store.get(&id).unwrap().unwrap();
    assert_eq!(retrieved.summary, "updated");
}

#[test]
fn test_delete() {
    let mut store = test_store();
    let mem = make_memory("test", "to delete");
    let id = mem.id.clone();
    store.store(mem).unwrap();

    store.delete(&id).unwrap();
    assert!(store.get(&id).unwrap().is_none());
}

#[test]
fn test_delete_not_found() {
    let mut store = test_store();
    let result = store.delete("nonexistent");
    assert!(matches!(result, Err(IcmError::NotFound(_))));
}

#[test]
fn test_delete_cleans_up_dangling_related_ids() {
    let mut store = test_store();

    let mut a = make_memory("t", "memory a");
    let mut b = make_memory("t", "memory b");
    let mut c = make_memory("t", "memory c");
    let a_id = store.store(a.clone()).unwrap();
    let b_id = store.store(b.clone()).unwrap();
    let c_id = store.store(c.clone()).unwrap();

    a.id = a_id.clone();
    a.related_ids = vec![b_id.clone(), c_id.clone()];
    store.update(&a).unwrap();
    b.id = b_id.clone();
    b.related_ids = vec![a_id.clone(), c_id.clone()];
    store.update(&b).unwrap();
    c.id = c_id.clone();
    c.related_ids = vec![a_id.clone(), b_id.clone()];
    store.update(&c).unwrap();

    store.delete(&a_id).unwrap();

    let b_after = store.get(&b_id).unwrap().unwrap();
    assert_eq!(
        b_after.related_ids,
        vec![c_id.clone()],
        "b's related_ids must no longer reference the deleted a"
    );
    let c_after = store.get(&c_id).unwrap().unwrap();
    assert_eq!(
        c_after.related_ids,
        vec![b_id.clone()],
        "c's related_ids must no longer reference the deleted a"
    );
}

#[test]
fn update_rejects_oversized_and_nul_payloads() {
    let mut store = test_store();
    let id = store.store(make_memory("t", "small")).unwrap();
    let mut m = store.get(&id).unwrap().unwrap();

    m.summary = "x".repeat(MAX_SUMMARY_BYTES + 1);
    assert!(matches!(store.update(&m), Err(IcmError::InvalidInput(_))));

    m.summary = "has a \0 NUL".into();
    assert!(matches!(store.update(&m), Err(IcmError::InvalidInput(_))));

    assert_eq!(store.get(&id).unwrap().unwrap().summary, "small");
}

#[test]
fn test_update_nonexistent_memory() {
    let mut store = test_store();
    let mut mem = make_memory("t", "s");
    mem.id = "nonexistent-id".to_string();
    let result = store.update(&mem);
    assert!(result.is_err());
}

#[test]
fn test_delete_nonexistent_memory() {
    let mut store = test_store();
    let result = store.delete("nonexistent-id");
    assert!(result.is_err());
}

#[test]
fn test_double_delete_returns_not_found() {
    let mut store = test_store();
    let mem = make_memory("ux", "delete twice");
    let id = mem.id.clone();
    store.store(mem).unwrap();

    store.delete(&id).unwrap();
    let result = store.delete(&id);
    assert!(matches!(result, Err(IcmError::NotFound(_))));
}

#[test]
fn test_forget_topic() {
    let mut store = test_store();

    for i in 0..3 {
        let m = make_memory("ephemeral", &format!("item {i}"));
        store.store(m).unwrap();
    }

    let before = store.get_by_topic("ephemeral").unwrap();
    assert_eq!(before.len(), 3);

    for m in &before {
        store.delete(&m.id).unwrap();
    }

    let after = store.get_by_topic("ephemeral").unwrap();
    assert!(after.is_empty());
}

#[test]
fn test_update_access() {
    let mut store = test_store();
    let mem = make_memory("test", "access test");
    let id = mem.id.clone();
    store.store(mem).unwrap();

    store.update_access(&id).unwrap();
    let retrieved = store.get(&id).unwrap().unwrap();
    assert_eq!(retrieved.access_count, 1);
}

#[test]
fn test_update_access_increments_correctly() {
    let mut store = test_store();
    let mem = make_memory("ux", "access counter");
    let id = mem.id.clone();
    store.store(mem).unwrap();

    for _ in 0..5 {
        store.update_access(&id).unwrap();
    }
    let retrieved = store.get(&id).unwrap().unwrap();
    assert_eq!(retrieved.access_count, 5);
}

#[test]
fn test_batch_update_access() {
    let mut store = test_store();
    let id1 = store.store(make_memory("t", "one")).unwrap();
    let id2 = store.store(make_memory("t", "two")).unwrap();
    store.batch_update_access(&[&id1, &id2]).unwrap();
    let m1 = store.get(&id1).unwrap().unwrap();
    let m2 = store.get(&id2).unwrap().unwrap();
    assert_eq!(m1.access_count, 1);
    assert_eq!(m2.access_count, 1);
}

#[test]
fn test_prune() {
    let mut store = test_store();
    let mut low = make_memory("test", "low weight");
    low.weight = 0.05f32.to_bits();
    store.store(low).unwrap();

    store.store(make_memory("test", "normal weight")).unwrap();

    let pruned = store.prune(0.1f32.to_bits()).unwrap();
    assert_eq!(pruned, 1);
    assert_eq!(store.count().unwrap(), 1);
}

#[test]
fn test_prune_leaves_important() {
    let mut store = test_store();
    for i in 0..20 {
        let mut mem = make_memory("prune", &format!("entry {i}"));
        mem.weight = if i < 10 { 0.01f32 } else { 0.5f32 }.to_bits();
        store.store(mem).unwrap();
    }
    let pruned = store.prune(0.1f32.to_bits()).unwrap();
    assert_eq!(pruned, 10);
    assert_eq!(store.count().unwrap(), 10);
}

#[test]
fn test_consolidate_topic() {
    let mut store = test_store();
    store.store(make_memory("topic-a", "entry 1")).unwrap();
    store.store(make_memory("topic-a", "entry 2")).unwrap();
    store.store(make_memory("topic-b", "other")).unwrap();

    let consolidated = make_memory("topic-a", "consolidated summary");
    store.consolidate_topic("topic-a", consolidated).unwrap();

    let memories = store.get_by_topic("topic-a").unwrap();
    assert_eq!(memories.len(), 1);
    assert_eq!(memories[0].summary, "consolidated summary");

    assert_eq!(store.get_by_topic("topic-b").unwrap().len(), 1);
}

#[test]
fn consolidate_topic_preserves_critical_memories() {
    let mut store = test_store();
    store.store(make_memory("t", "expendable 1")).unwrap();
    store.store(make_memory("t", "expendable 2")).unwrap();
    store
        .store(Memory::new(
            "t".into(),
            "never forget this".into(),
            Importance::Critical,
        ))
        .unwrap();

    store
        .consolidate_topic("t", make_memory("t", "rollup"))
        .unwrap();

    let after = store.get_by_topic("t").unwrap();
    let summaries: Vec<&str> = after.iter().map(|m| m.summary.as_str()).collect();
    assert_eq!(after.len(), 2, "critical + consolidated must both survive");
    assert!(summaries.contains(&"never forget this"));
    assert!(summaries.contains(&"rollup"));
    assert!(!summaries.contains(&"expendable 1"));
}

#[test]
fn consolidate_topic_cleans_up_dangling_related_ids_in_other_memories() {
    let mut store = test_store();
    let a_id = store.store(make_memory("t", "memory a")).unwrap();
    let b_id = store.store(make_memory("t", "memory b")).unwrap();

    let mut external = make_memory("other-topic", "external memory");
    external.related_ids = vec![a_id.clone(), b_id.clone()];
    let external_id = store.store(external).unwrap();

    store
        .consolidate_topic("t", make_memory("t", "rollup"))
        .unwrap();

    let external_after = store.get(&external_id).unwrap().unwrap();
    assert!(
        external_after.related_ids.is_empty(),
        "external memory must no longer reference the consolidated-away ids: {:?}",
        external_after.related_ids
    );
}

#[test]
fn consolidate_topic_validates_consolidated_summary() {
    let mut store = test_store();
    store.store(make_memory("t", "entry")).unwrap();

    let oversized = make_memory("t", &"x".repeat(MAX_SUMMARY_BYTES + 1));
    assert!(matches!(
        store.consolidate_topic("t", oversized),
        Err(IcmError::InvalidInput(_))
    ));
    assert_eq!(store.get_by_topic("t").unwrap().len(), 1);
}

#[test]
fn test_consolidate_large_topic() {
    let mut store = test_store();
    for i in 0..25 {
        store
            .store(make_memory("big-topic", &format!("detail {i}")))
            .unwrap();
    }
    let consolidated = make_memory("big-topic", "consolidated summary of 25 entries");
    store.consolidate_topic("big-topic", consolidated).unwrap();
    let remaining = store.get_by_topic("big-topic").unwrap();
    assert_eq!(remaining.len(), 1);
    assert!(remaining[0].summary.contains("consolidated"));
}

#[test]
fn perf_consolidate_large_topic_timing() {
    let mut store = test_store();
    for i in 0..100 {
        store
            .store(make_memory(
                "consolidate-perf",
                &format!("detail entry {i} with various information"),
            ))
            .unwrap();
    }
    let start = std::time::Instant::now();
    let consolidated = make_memory("consolidate-perf", "All 100 entries consolidated");
    store
        .consolidate_topic("consolidate-perf", consolidated)
        .unwrap();
    let elapsed = start.elapsed();
    assert!(
        elapsed.as_millis() < 1000,
        "Consolidating 100 entries took {}ms (max 1000ms)",
        elapsed.as_millis()
    );
    assert_eq!(store.get_by_topic("consolidate-perf").unwrap().len(), 1);
}

#[test]
fn test_update_invalidates_cache() {
    let mut store = test_store();
    let m = make_memory("t", "v1");
    let id = store.store(m).unwrap();

    let _ = store.get(&id).unwrap();

    let mut updated = store.get(&id).unwrap().unwrap();
    updated.summary = "v2".into();
    store.update(&updated).unwrap();

    let after = store.get(&id).unwrap().unwrap();
    assert_eq!(after.summary, "v2");
}

#[test]
fn test_delete_invalidates_cache() {
    let mut store = test_store();
    let m = make_memory("t", "doomed");
    let id = store.store(m).unwrap();

    let _ = store.get(&id).unwrap();
    store.delete(&id).unwrap();

    let after = store.get(&id).unwrap();
    assert!(after.is_none(), "deleted memory must not survive in cache");
}
