//! Finding memories by topic, identifier and keyword.
use icm_store::memory::{Importance, Memory};
use icm_store::store::SqliteStore;

fn test_store() -> SqliteStore {
    SqliteStore::in_memory().unwrap()
}

fn make_memory(topic: &str, summary: &str) -> Memory {
    Memory::new(topic.into(), summary.into(), Importance::Medium)
}

#[test]
fn test_list_topics() {
    let mut store = test_store();
    store.store(make_memory("alpha", "first")).unwrap();
    store.store(make_memory("alpha", "second")).unwrap();
    store.store(make_memory("beta", "third")).unwrap();

    let topics = store.list_topics().unwrap();
    assert_eq!(topics.len(), 2);
    assert!(topics.contains(&("alpha".into(), 2)));
    assert!(topics.contains(&("beta".into(), 1)));
}

#[test]
fn test_many_topics_listing() {
    let mut store = test_store();
    for i in 0..30 {
        store
            .store(make_memory(&format!("topic-{i}"), &format!("content {i}")))
            .unwrap();
    }
    let topics = store.list_topics().unwrap();
    assert_eq!(topics.len(), 30);
}

#[test]
fn test_list_topics_multiple() {
    let mut store = test_store();
    store.store(make_memory("alpha", "a")).unwrap();
    store.store(make_memory("beta", "b")).unwrap();
    store.store(make_memory("alpha", "c")).unwrap();
    let topics = store.list_topics().unwrap();
    assert_eq!(topics.len(), 2);
}

#[test]
fn perf_list_topics_many() {
    let mut store = test_store();
    for i in 0..200 {
        store
            .store(make_memory(
                &format!("distinct-topic-{i}"),
                &format!("content for topic {i}"),
            ))
            .unwrap();
    }
    let start = std::time::Instant::now();
    for _ in 0..50 {
        let topics = store.list_topics().unwrap();
        assert_eq!(topics.len(), 200);
    }
    let elapsed = start.elapsed();
    assert!(
        elapsed.as_millis() < 1000,
        "50 list_topics calls over 200 topics took {}ms (max 1000ms)",
        elapsed.as_millis()
    );
}

#[test]
fn test_get_by_topic_returns_sorted_by_weight() {
    let mut store = test_store();
    let mut low = make_memory("ux", "low weight");
    low.weight = 0.3f32.to_bits();
    store.store(low).unwrap();

    let mut high = make_memory("ux", "high weight");
    high.weight = 0.9f32.to_bits();
    store.store(high).unwrap();

    let results = store.get_by_topic("ux").unwrap();
    assert_eq!(results.len(), 2);
    assert!(results[0].weight >= results[1].weight);
}

#[test]
fn test_get_by_topic_prefix() {
    let mut store = test_store();
    store
        .store(make_memory("project:web", "web stuff"))
        .unwrap();
    store
        .store(make_memory("project:api", "api stuff"))
        .unwrap();
    store.store(make_memory("other", "unrelated")).unwrap();
    let results = store.get_by_topic_prefix("project:*").unwrap();
    assert_eq!(results.len(), 2);
}

#[test]
fn test_get_many_returns_requested_ids() {
    let mut store = test_store();
    let m1 = make_memory("t", "first");
    let m2 = make_memory("t", "second");
    let m3 = make_memory("t", "third");
    let id1 = store.store(m1.clone()).unwrap();
    let id2 = store.store(m2.clone()).unwrap();
    store.store(m3).unwrap();

    let got = store.get_many(&[id1.as_str(), id2.as_str()]).unwrap();
    assert_eq!(got.len(), 2);
    assert!(got.iter().any(|m| m.id == id1));
    assert!(got.iter().any(|m| m.id == id2));
}

#[test]
fn test_get_many_empty_input_returns_empty() {
    let mut store = test_store();
    let got = store.get_many(&[]).unwrap();
    assert!(got.is_empty());
}

#[test]
fn test_get_many_missing_ids_silently_dropped() {
    let mut store = test_store();
    let m1 = make_memory("t", "real");
    let id1 = store.store(m1).unwrap();

    let got = store.get_many(&[id1.as_str(), "01NONEXISTENT"]).unwrap();
    assert_eq!(got.len(), 1);
    assert!(got.iter().any(|m| m.id == id1));
}

#[test]
fn test_get_many_dedupes_input() {
    let mut store = test_store();
    let m1 = make_memory("t", "only");
    let id1 = store.store(m1).unwrap();

    let got = store
        .get_many(&[id1.as_str(), id1.as_str(), id1.as_str()])
        .unwrap();
    assert_eq!(got.len(), 1);
}

#[test]
fn test_search_by_keywords() {
    let mut store = test_store();
    let mut mem = make_memory("test", "database optimization tips");
    mem.keywords = vec!["database".into(), "optimization".into()];
    store.store(mem).unwrap();

    let results = store.search_by_keywords(&["database"], 10).unwrap();
    assert_eq!(results.len(), 1);
}

#[test]
fn test_sql_injection_in_keywords() {
    let mut store = test_store();
    let mut mem = make_memory("test", "keyword injection");
    mem.keywords = vec!["normal".into(), "'; DROP TABLE memories; --".into()];
    store.store(mem).unwrap();
    assert_eq!(store.count().unwrap(), 1);

    let results = store
        .search_by_keywords(&["'; DROP TABLE memories; --"], 10)
        .unwrap();
    let _ = results;
}

#[test]
fn test_search_by_keywords_limit_capped() {
    let mut store = test_store();
    let mut mem = make_memory("test", "keyword search test");
    mem.keywords = vec!["findme".into()];
    store.store(mem).unwrap();

    let results = store.search_by_keywords(&["findme"], 999_999).unwrap();
    assert!(results.len() <= 100);
}

#[test]
fn test_search_by_keywords_empty() {
    let mut store = test_store();
    let results = store.search_by_keywords(&[], 10).unwrap();
    assert!(results.is_empty());
}

#[test]
fn test_search_by_keywords_escapes_percent_wildcard() {
    let mut store = test_store();
    store
        .store(make_memory("t", "revenue grew by 100% year over year"))
        .unwrap();
    store
        .store(make_memory("t", "the report has exactly 100 lines total"))
        .unwrap();

    let results = store.search_by_keywords(&["100%"], 10).unwrap();
    assert_eq!(
        results.len(),
        1,
        "a literal '100%' keyword must match only rows containing that exact \
             substring, not any row containing '100', got {} hits",
        results.len()
    );
    assert!(results[0].summary.contains("100%"));
}

#[test]
fn test_search_by_keywords_escapes_underscore_wildcard() {
    let mut store = test_store();
    store
        .store(make_memory("t", "uses snake_case naming"))
        .unwrap();
    store
        .store(make_memory(
            "t",
            "uses snakeXcase naming (not the real word)",
        ))
        .unwrap();

    let results = store.search_by_keywords(&["snake_case"], 10).unwrap();
    assert_eq!(
        results.len(),
        1,
        "'_' in a keyword must be literal, not a single-char wildcard, got {} hits",
        results.len()
    );
    assert!(results[0].summary.contains("snake_case"));
}

#[test]
fn perf_keyword_search_with_many_entries() {
    let mut store = test_store();
    for i in 0..1000 {
        let mut mem = make_memory(
            &format!("kw-topic-{}", i % 20),
            &format!("keyword searchable entry number {i}"),
        );
        mem.keywords = vec![
            format!("keyword-{}", i % 10),
            format!("category-{}", i % 5),
            "common".into(),
        ];
        store.store(mem).unwrap();
    }

    let start = std::time::Instant::now();
    for i in 0..50 {
        let results = store
            .search_by_keywords(&[&format!("keyword-{}", i % 10)], 10)
            .unwrap();
        assert!(!results.is_empty());
    }
    let elapsed = start.elapsed();
    assert!(
        elapsed.as_millis() < 2000,
        "50 keyword searches over 1000 entries took {}ms (max 2000ms)",
        elapsed.as_millis()
    );
}
