//! Storing memories and reading them back.
use icm_store::error::IcmError;
use icm_store::memory::{Importance, Memory};
use icm_store::store::SqliteStore;

fn test_store() -> SqliteStore {
    SqliteStore::in_memory().unwrap()
}

fn make_memory(topic: &str, summary: &str) -> Memory {
    Memory::new(topic.into(), summary.into(), Importance::Medium)
}

#[test]
fn test_store_and_get() {
    let mut store = test_store();
    let mem = make_memory("test", "hello world");
    let id = mem.id.clone();

    store.store(mem).unwrap();
    let retrieved = store.get(&id).unwrap().unwrap();
    assert_eq!(retrieved.summary, "hello world");
    assert_eq!(retrieved.topic, "test");
}

#[test]
fn test_get_not_found() {
    let mut store = test_store();
    let result = store.get("nonexistent").unwrap();
    assert!(result.is_none());
}

#[test]
fn test_restore_upgrades_importance_on_dedup() {
    let mut store = test_store();
    let mut first = make_memory("topic", "long enough summary content for storage");
    first.importance = Importance::Medium;
    let id1 = store.store(first).unwrap();

    let mut second = make_memory("topic", "long enough summary content for storage");
    second.importance = Importance::Critical;
    let id2 = store.store(second).unwrap();
    assert_eq!(id1, id2, "dedup must return the same id");

    let merged = store.get(&id1).unwrap().unwrap();
    assert_eq!(
        merged.importance,
        Importance::Critical,
        "re-store with higher priority must upgrade importance"
    );
}

#[test]
fn test_restore_does_not_downgrade_importance_on_dedup() {
    let mut store = test_store();
    let mut first = make_memory("topic", "long enough summary content for storage");
    first.importance = Importance::Critical;
    let id1 = store.store(first).unwrap();

    let mut second = make_memory("topic", "long enough summary content for storage");
    second.importance = Importance::Low;
    store.store(second).unwrap();

    let preserved = store.get(&id1).unwrap().unwrap();
    assert_eq!(
        preserved.importance,
        Importance::Critical,
        "re-store with lower priority must not downgrade importance"
    );
}

#[test]
fn test_restore_unions_keywords_on_dedup() {
    let mut store = test_store();
    let mut first = make_memory("topic", "long enough summary content for storage");
    first.keywords = vec!["alpha".into(), "beta".into()];
    let id1 = store.store(first).unwrap();

    let mut second = make_memory("topic", "long enough summary content for storage");
    second.keywords = vec!["beta".into(), "gamma".into()];
    store.store(second).unwrap();

    let merged = store.get(&id1).unwrap().unwrap();
    assert_eq!(
        merged.keywords,
        vec!["alpha".to_string(), "beta".to_string(), "gamma".to_string(),],
        "keywords must be unioned and deduped, preserving existing order"
    );
}

#[test]
fn test_restore_sets_raw_excerpt_when_previously_none() {
    let mut store = test_store();
    let first = make_memory("topic", "long enough summary content for storage");
    let id1 = store.store(first).unwrap();
    assert!(store.get(&id1).unwrap().unwrap().raw_excerpt.is_none());

    let mut second = make_memory("topic", "long enough summary content for storage");
    second.raw_excerpt = Some("verbatim copy from source".into());
    store.store(second).unwrap();

    let merged = store.get(&id1).unwrap().unwrap();
    assert_eq!(
        merged.raw_excerpt.as_deref(),
        Some("verbatim copy from source"),
    );
}

#[test]
fn test_restore_keeps_existing_raw_excerpt_when_new_is_none() {
    let mut store = test_store();
    let mut first = make_memory("topic", "long enough summary content for storage");
    first.raw_excerpt = Some("important verbatim".into());
    let id1 = store.store(first).unwrap();

    let second = make_memory("topic", "long enough summary content for storage");
    store.store(second).unwrap();

    let preserved = store.get(&id1).unwrap().unwrap();
    assert_eq!(
        preserved.raw_excerpt.as_deref(),
        Some("important verbatim"),
        "re-store with None must not erase existing raw_excerpt"
    );
}

#[test]
fn test_restore_unchanged_metadata_is_noop() {
    let mut store = test_store();
    let mut first = make_memory("topic", "long enough summary content for storage");
    first.importance = Importance::High;
    first.keywords = vec!["alpha".into()];
    let id1 = store.store(first.clone()).unwrap();
    let original = store.get(&id1).unwrap().unwrap();

    let start = std::time::Instant::now();
    while start.elapsed().as_millis() < 10 {}
    store.store(first).unwrap();
    let after = store.get(&id1).unwrap().unwrap();

    assert_eq!(
        original.updated_at, after.updated_at,
        "no-op re-store must not bump updated_at"
    );
}

#[test]
fn test_store_with_embedding() {
    let mut store = test_store();
    let mut mem = make_memory("test", "vector enabled");
    mem.embedding = Some(vec![0.1f32.to_bits(); 384]);
    let id = store.store(mem).unwrap();

    let retrieved = store.get(&id).unwrap().unwrap();
    assert!(retrieved.embedding.is_some());
    assert_eq!(retrieved.embedding.as_ref().unwrap().len(), 384);
}

#[test]
fn test_store_without_embedding() {
    let mut store = test_store();
    let mem = make_memory("test", "no vector");
    let id = store.store(mem).unwrap();

    let retrieved = store.get(&id).unwrap().unwrap();
    assert!(retrieved.embedding.is_none());
}

#[test]
fn test_sql_injection_in_topic() {
    let mut store = test_store();
    let mem = make_memory("'; DROP TABLE memories; --", "should be safe");
    store.store(mem.clone()).unwrap();

    let retrieved = store.get(&mem.id).unwrap().unwrap();
    assert_eq!(retrieved.topic, "'; DROP TABLE memories; --");
    assert_eq!(store.count().unwrap(), 1);
    let topics = store.list_topics().unwrap();
    assert_eq!(topics.len(), 1);
}

#[test]
fn test_sql_injection_in_summary() {
    let mut store = test_store();
    let mem = make_memory("test", "value'); DELETE FROM memories WHERE ('1'='1");
    store.store(mem).unwrap();
    assert_eq!(store.count().unwrap(), 1);
}

#[test]
fn test_null_bytes_in_summary_rejected() {
    let mut store = test_store();
    let mem = make_memory("test", "before\0after");
    let err = store.store(mem).unwrap_err();
    assert!(
        matches!(err, IcmError::InvalidInput(ref m) if m.contains("NUL")),
        "expected InvalidInput(NUL...) got {err:?}"
    );
}

#[test]
fn test_null_bytes_in_topic_rejected() {
    let mut store = test_store();
    let mem = make_memory("topic\0fake", "real summary content");
    let err = store.store(mem).unwrap_err();
    assert!(
        matches!(err, IcmError::InvalidInput(ref m) if m.contains("NUL")),
        "expected InvalidInput(NUL...) got {err:?}"
    );
}

#[test]
fn test_unicode_topic_with_trailing_null_rejected() {
    let mut store = test_store();
    let unicode_topic = "\u{1F600}\u{1F4A9}\u{0000}";
    let mem = make_memory(unicode_topic, "emoji topic content here");
    let err = store.store(mem).unwrap_err();
    assert!(
        matches!(err, IcmError::InvalidInput(ref m) if m.contains("NUL")),
        "expected NUL rejection on emoji+NUL topic, got {err:?}"
    );
}

#[test]
fn test_unicode_emoji_topic_without_null_accepted() {
    let mut store = test_store();
    let mem = make_memory("\u{1F525}-decisions", "real content here please");
    let id = store.store(mem.clone()).unwrap();
    let retrieved = store.get(&id).unwrap().unwrap();
    assert!(retrieved.topic.starts_with('\u{1F525}'));
}

#[test]
fn test_summary_within_cap_accepted() {
    let mut store = test_store();
    let summary = "a".repeat(60_000);
    let mem = make_memory("test", &summary);
    store.store(mem.clone()).unwrap();
    let retrieved = store.get(&mem.id).unwrap().unwrap();
    assert_eq!(retrieved.summary.len(), 60_000);
}

#[test]
fn test_summary_exceeding_cap_rejected() {
    let mut store = test_store();
    let long_summary = "a".repeat(100_000);
    let mem = make_memory("test", &long_summary);
    let err = store.store(mem).unwrap_err();
    assert!(
        matches!(err, IcmError::InvalidInput(ref m) if m.contains("summary exceeds")),
        "expected summary-size rejection got {err:?}"
    );
}

#[test]
fn test_empty_topic_rejected() {
    let mut store = test_store();
    let mem = make_memory("", "real summary content here");
    let err = store.store(mem).unwrap_err();
    assert!(
        matches!(err, IcmError::InvalidInput(ref m) if m.contains("topic cannot be empty")),
        "expected empty-topic rejection got {err:?}"
    );
}

#[test]
fn test_whitespace_only_topic_rejected() {
    let mut store = test_store();
    let mem = make_memory("   \t  ", "real summary content here");
    let err = store.store(mem).unwrap_err();
    assert!(
        matches!(err, IcmError::InvalidInput(ref m) if m.contains("topic cannot be empty")),
        "expected empty-after-trim rejection got {err:?}"
    );
}

#[test]
fn test_empty_summary_rejected() {
    let mut store = test_store();
    let mem = make_memory("topic", "");
    let err = store.store(mem).unwrap_err();
    assert!(
        matches!(err, IcmError::InvalidInput(ref m) if m.contains("summary cannot be empty")),
        "expected empty-summary rejection got {err:?}"
    );
}

#[test]
fn test_topic_with_newline_rejected() {
    let mut store = test_store();
    let mem = make_memory("topic\nfake-topic", "real summary content here");
    let err = store.store(mem).unwrap_err();
    assert!(
        matches!(err, IcmError::InvalidInput(ref m) if m.contains("newline")),
        "expected newline rejection got {err:?}"
    );
}

#[test]
fn test_topic_trailing_whitespace_trimmed_on_store() {
    let mut store = test_store();
    let id1 = store
        .store(make_memory("  trail  ", "summary one content"))
        .unwrap();
    let mem1 = store.get(&id1).unwrap().unwrap();
    assert_eq!(mem1.topic, "trail", "topic should be trimmed");
}

#[test]
fn test_bulk_insert_100() {
    let mut store = test_store();
    for i in 0..100 {
        store
            .store(make_memory("bulk", &format!("memory number {i}")))
            .unwrap();
    }
    assert_eq!(store.count().unwrap(), 100);
    let by_topic = store.get_by_topic("bulk").unwrap();
    assert_eq!(by_topic.len(), 100);
}

#[test]
fn test_dedup_same_topic_summary_collapses() {
    let mut store = test_store();
    let m1 = make_memory("dedup", "Use Turso for cloud sync");
    let m2 = make_memory("dedup", "Use Turso for cloud sync"); // identical content
    let id1 = store.store(m1).unwrap();
    let id2 = store.store(m2).unwrap();
    assert_eq!(id1, id2, "dedup must return the existing row's id");
    assert_eq!(store.count().unwrap(), 1, "only one row in memories");
}

#[test]
fn test_dedup_normalizes_whitespace_and_case() {
    let mut store = test_store();
    let m1 = make_memory("DEDUP", "Use   Turso   for cloud sync");
    let m2 = make_memory("dedup", "use turso for cloud sync");
    let id1 = store.store(m1).unwrap();
    let id2 = store.store(m2).unwrap();
    assert_eq!(id1, id2);
    assert_eq!(store.count().unwrap(), 1);
}

#[test]
fn test_dedup_normalizes_accented_case() {
    let mut store = test_store();
    let m1 = make_memory("Décisions", "on utilise Turso pour la synchro");
    let m2 = make_memory("DÉCISIONS", "on utilise Turso pour la synchro");
    let id1 = store.store(m1).unwrap();
    let id2 = store.store(m2).unwrap();
    assert_eq!(
        id1, id2,
        "accented topics differing only in case must dedup to the same row"
    );
    assert_eq!(store.count().unwrap(), 1);
}

#[test]
fn test_dedup_different_topic_keeps_both() {
    let mut store = test_store();
    let m1 = make_memory("topic-a", "shared body");
    let m2 = make_memory("topic-b", "shared body");
    let id1 = store.store(m1).unwrap();
    let id2 = store.store(m2).unwrap();
    assert_ne!(id1, id2, "different topic = different row");
    assert_eq!(store.count().unwrap(), 2);
}

#[test]
fn perf_store_1000() {
    let mut store = test_store();
    let start = std::time::Instant::now();
    for i in 0..1000 {
        store
            .store(make_memory("perf", &format!("memory number {i}")))
            .unwrap();
    }
    let elapsed = start.elapsed();
    assert!(
        elapsed.as_millis() < 2000,
        "1000 stores took {}ms (max 2000ms)",
        elapsed.as_millis()
    );
}

#[test]
fn perf_store_with_embeddings_1000() {
    let mut store = test_store();
    let start = std::time::Instant::now();
    for i in 0..1000 {
        let mut mem = make_memory("perf", &format!("embedded memory {i}"));
        mem.embedding = Some(vec![0.1f32.to_bits(); 384]);
        store.store(mem).unwrap();
    }
    let elapsed = start.elapsed();
    assert!(
        elapsed.as_millis() < 3000,
        "1000 stores+embedding took {}ms (max 3000ms)",
        elapsed.as_millis()
    );
}

#[test]
fn perf_get_by_id_1000() {
    let mut store = test_store();
    let mut ids = Vec::new();
    for i in 0..1000 {
        let mem = make_memory("get", &format!("lookup {i}"));
        let id = mem.id.clone();
        store.store(mem).unwrap();
        ids.push(id);
    }
    let start = std::time::Instant::now();
    for id in &ids {
        store.get(id).unwrap();
    }
    let elapsed = start.elapsed();
    assert!(
        elapsed.as_millis() < 1000,
        "1000 gets took {}ms (max 1000ms)",
        elapsed.as_millis()
    );
}
