//! What operations leave behind, and what one call undoes of another.
use icm_store::error::IcmError;
use icm_store::hooks::HookEventInsert;
use icm_store::memory::{Importance, Memory, MemorySource, Scope};
use icm_store::row::{indexed_vector, memory_to_row, row_to_memory};
use icm_store::store::{SqliteStore, Tables};
use icm_store::time::Timestamp;

fn test_store() -> SqliteStore {
    SqliteStore::in_memory().unwrap()
}

fn make_memory(topic: &str, summary: &str) -> Memory {
    Memory::new(topic.into(), summary.into(), Importance::Medium)
}

fn full_memory() -> Memory {
    let mut m = make_memory("topic", "a summary");
    m.created_at = Timestamp::new(1_000_000_000, 1).unwrap();
    m.updated_at = Timestamp::new(1_100_000_000, 20_000).unwrap();
    m.last_accessed = Timestamp::new(1_200_000_000, 3_000_000).unwrap();
    m.access_count = 7;
    m.weight = 0.75f32.to_bits();
    m.raw_excerpt = Some("raw \"quoted\"\n\u{1}".into());
    m.keywords = vec!["k \"1\"".into(), "é\\".into(), "".into()];
    m.importance = Importance::High;
    m.source = MemorySource::Conversation { thread_id: "t-1".into() };
    m.related_ids = vec!["other".into()];
    m.embedding = Some((0..384).map(|i| (i as f32 / 7.0).to_bits()).collect());
    m.scope = Scope::Project;
    m
}

fn assert_same(a: &Memory, b: &Memory) {
    assert_eq!(a.id, b.id);
    assert_eq!(a.created_at, b.created_at);
    assert_eq!(a.updated_at, b.updated_at);
    assert_eq!(a.last_accessed, b.last_accessed);
    assert_eq!(a.access_count, b.access_count);
    assert_eq!(a.weight, b.weight);
    assert_eq!(a.topic, b.topic);
    assert_eq!(a.summary, b.summary);
    assert_eq!(a.raw_excerpt, b.raw_excerpt);
    assert_eq!(a.keywords, b.keywords);
    assert_eq!(a.importance, b.importance);
    assert_eq!(format!("{:?}", a.source), format!("{:?}", b.source));
    assert_eq!(a.related_ids, b.related_ids);
    assert_eq!(a.embedding, b.embedding);
}

#[test]
fn a_stored_memory_is_read_back() {
    let mut store = test_store();
    let m = full_memory();
    let id = store.store(m.clone()).unwrap();
    let first = store.get(&id).unwrap().unwrap();
    assert_same(&m, &first);
    assert_eq!(first.scope, Scope::User);
    let cached = store.get(&id).unwrap().unwrap();
    assert_same(&m, &cached);
}

#[test]
fn a_row_without_its_optional_columns_is_read() {
    let now = Timestamp::new(42, 0).unwrap();
    let mut row = memory_to_row(&full_memory());
    row.keywords = None;
    row.related_ids = Some("not json".into());
    row.updated_at = None;
    row.embedding = None;
    row.importance = "??".into();
    row.source_type = "manual".into();
    row.last_accessed = "never".into();
    let m = row_to_memory(&row, now);
    assert!(m.keywords.is_empty());
    assert!(m.related_ids.is_empty());
    assert_eq!(m.updated_at, m.created_at);
    assert!(m.embedding.is_none());
    assert_eq!(m.importance, Importance::Medium);
    assert!(matches!(m.source, MemorySource::Manual));
    assert_eq!(m.last_accessed, now);
    row.updated_at = Some(String::new());
    assert_eq!(row_to_memory(&row, now).updated_at, m.created_at);
}

#[test]
fn storing_twice_is_storing_once() {
    let mut store = test_store();
    let m = full_memory();
    let id = store.store(m.clone()).unwrap();
    let mut again = m.clone();
    again.id = "another".into();
    assert_eq!(store.store(again).unwrap(), id);
    assert_eq!(store.count().unwrap(), 1);
    assert_same(&m, &store.get(&id).unwrap().unwrap());
}

#[test]
fn a_merge_moves_updated_at_and_forgets_the_cached_copy() {
    let mut store = test_store();
    let m = full_memory();
    let id = store.store(m.clone()).unwrap();
    let _ = store.get(&id).unwrap();
    let mut more = m.clone();
    more.keywords = vec!["new".into(), "new".into(), "é\\".into()];
    store.store(more).unwrap();
    let merged = store.get(&id).unwrap().unwrap();
    assert_eq!(merged.keywords, vec!["k \"1\"", "é\\", "", "new"]);
    assert_eq!(merged.created_at, m.created_at);
    assert!(merged.updated_at.secs() > m.updated_at.secs());
}

#[test]
fn a_taken_identifier_is_refused() {
    let mut store = test_store();
    let m = make_memory("t", "one");
    store.store(m.clone()).unwrap();
    let mut other = make_memory("t", "two");
    other.id = m.id.clone();
    let err = store.store(other).unwrap_err();
    assert!(matches!(err, IcmError::Database(ref e) if e == "Query returned no rows"));
    assert_eq!(store.get(&m.id).unwrap().unwrap().summary, "one");
}

#[test]
fn a_row_without_keywords_refuses_a_merge() {
    let m = make_memory("t", "one");
    let mut row = memory_to_row(&m);
    row.keywords = None;
    let tables = Tables {
        memories: vec![row],
        dims: 384,
        pending: Vec::new(),
        code_areas: Vec::new(),
        hooks: Vec::new(),
        facts: Vec::new(),
        hook_counter: Some(3),
    };
    let mut store = SqliteStore::from_tables(tables, false).unwrap();
    let err = store.store(make_memory("t", "one")).unwrap_err();
    assert!(matches!(err, IcmError::Database(ref e) if e.contains("name: keywords")));
    assert_eq!(store.increment_hook_counter().unwrap(), 4);
}

#[test]
fn an_embedding_of_another_size_is_refused() {
    let mut store = SqliteStore::in_memory_with_dims(2).unwrap();
    let mut m = make_memory("t", "one");
    m.embedding = Some(vec![0; 3]);
    assert!(matches!(store.store(m.clone()), Err(IcmError::Database(_))));
    assert_eq!(store.count().unwrap(), 0);
    m.embedding = Some(vec![0; 2]);
    store.store(m.clone()).unwrap();
    // The content is there already, so the embedding is not looked at.
    m.embedding = Some(vec![0; 3]);
    assert_eq!(store.store(m.clone()).unwrap(), m.id);
    assert!(matches!(store.update(&m), Err(IcmError::Database(_))));
    assert_eq!(store.memories().embedding_dims(), 2);
}

#[test]
fn an_update_cannot_take_the_content_of_another_memory() {
    let mut store = test_store();
    let a = make_memory("t", "one");
    store.store(a.clone()).unwrap();
    let mut b = make_memory("t", "two");
    store.store(b.clone()).unwrap();
    b.summary = " ONE ".into();
    let err = store.update(&b).unwrap_err();
    assert!(matches!(err, IcmError::Database(ref e) if e.contains("UNIQUE")));
    b.summary = "three".into();
    b.keywords = vec!["x".into()];
    store.update(&b).unwrap();
    let after = store.get(&b.id).unwrap().unwrap();
    assert_eq!(after.summary, "three");
    assert_eq!(after.keywords, vec!["x"]);
    assert_eq!(store.store(make_memory("t", "three")).unwrap(), b.id);
}

#[test]
fn the_cache_never_serves_a_stale_memory() {
    let mut store = test_store();
    let mut ids = Vec::new();
    for i in 0..300 {
        ids.push(store.store(make_memory("t", &format!("entry {i}"))).unwrap());
    }
    for id in &ids {
        store.get(id).unwrap();
    }
    store.update_access(&ids[299]).unwrap();
    store.batch_update_access(&[&ids[298], &ids[298], "nobody"]).unwrap();
    assert_eq!(store.get(&ids[299]).unwrap().unwrap().access_count, 1);
    assert_eq!(store.get(&ids[298]).unwrap().unwrap().access_count, 2);
    for (i, id) in ids.iter().enumerate() {
        assert_eq!(store.get(id).unwrap().unwrap().summary, format!("entry {i}"));
    }
    store.prune(2.0f32.to_bits()).unwrap();
    for id in &ids {
        assert!(store.get(id).unwrap().is_none());
    }
}

#[test]
fn critical_memories_are_never_pruned() {
    let mut store = test_store();
    let mut m = make_memory("t", "keep");
    m.importance = Importance::Critical;
    m.weight = 0.0f32.to_bits();
    store.store(m).unwrap();
    assert_eq!(store.prune(f32::MAX.to_bits()).unwrap(), 0);
    assert_eq!(store.count().unwrap(), 1);
}

#[test]
fn a_failed_consolidation_changes_nothing() {
    let mut store = test_store();
    let kept = make_memory("other", "kept");
    store.store(kept.clone()).unwrap();
    store.store(make_memory("t", "one")).unwrap();
    let mut bad = make_memory("t", "rollup");
    bad.id = kept.id.clone();
    assert!(matches!(store.consolidate_topic("t", bad), Err(IcmError::Database(_))));
    assert_eq!(store.count_by_topic("t").unwrap(), 1);
    assert_eq!(store.get_by_topic("t").unwrap()[0].summary, "one");
}

#[test]
fn pending_output_is_a_queue() {
    let mut store = test_store();
    let at = |s| Timestamp::new(s, 0).unwrap();
    store.enqueue_piece("b".into(), "p", "t", "second", at(2_000)).unwrap();
    store.enqueue_piece("a".into(), "p", "t", "first", at(1_000)).unwrap();
    store.enqueue_piece("c".into(), "p", "t", "second too", at(2_000)).unwrap();
    let taken = store.enqueue_piece("a".into(), "p", "t", "again", at(3_000));
    assert!(matches!(taken, Err(IcmError::Database(ref e)) if e.contains("UNIQUE")));
    let new = store.enqueue_pending_extraction("proj", "Bash", "raw").unwrap();
    assert_eq!(new.len(), 26);
    assert_eq!(store.pending_extraction_count().unwrap(), 4);

    let two = store.list_pending_extractions(2).unwrap();
    assert_eq!(two.iter().map(|r| r.3.as_str()).collect::<Vec<_>>(), vec!["first", "second"]);
    assert_eq!(two[0].4, "1970-01-01T00:16:40+00:00");
    assert!(store.list_pending_extractions(0).unwrap().is_empty());
    assert_eq!(store.list_pending_extractions(usize::MAX).unwrap()[3].0, new);

    let ids = vec!["a".to_string(), "nobody".to_string(), "a".to_string(), new];
    assert_eq!(store.delete_pending_extractions(&ids).unwrap(), 2);
    assert_eq!(store.pending_extraction_count().unwrap(), 2);
    assert_eq!(store.list_pending_extractions(9).unwrap()[0].0, "b");
    let many = vec!["x".to_string(); 32_767];
    assert!(matches!(store.delete_pending_extractions(&many), Err(IcmError::Database(_))));
    assert_eq!(store.delete_pending_extractions(&[]).unwrap(), 0);
}

#[test]
fn the_hook_counter_counts_from_its_reset() {
    let mut store = test_store();
    assert_eq!(store.increment_hook_counter().unwrap(), 1);
    assert_eq!(store.increment_hook_counter().unwrap(), 2);
    store.reset_hook_counter().unwrap();
    assert_eq!(store.hook_counter(), Some(0));
    assert_eq!(store.increment_hook_counter().unwrap(), 1);
}

fn counter_at(n: i64) -> SqliteStore {
    let tables = Tables {
        memories: Vec::new(),
        dims: 384,
        pending: Vec::new(),
        code_areas: Vec::new(),
        hooks: Vec::new(),
        facts: Vec::new(),
        hook_counter: Some(n),
    };
    SqliteStore::from_tables(tables, false).unwrap()
}

#[test]
fn a_counter_out_of_range_is_reported() {
    let mut low = counter_at(-2);
    assert!(matches!(low.increment_hook_counter(), Err(IcmError::Database(_))));
    assert_eq!(low.increment_hook_counter().unwrap(), 0);
    let mut high = counter_at(i64::MAX);
    assert!(matches!(high.increment_hook_counter(), Err(IcmError::Database(_))));
    assert_eq!(high.hook_counter(), Some(i64::MAX));
}

fn run(event: &str, duration_ms: Option<i64>, exit_code: i32) -> HookEventInsert {
    HookEventInsert {
        event: event.into(),
        project: Some("p".into()),
        session_id: None,
        tool_name: None,
        duration_ms,
        exit_code,
        payload_size: Some(10),
        note: Some("n".into()),
    }
}

#[test]
fn percentiles_are_those_of_the_rounded_position() {
    for n in [1usize, 2, 3, 4, 51, 52, 100, 101, 151] {
        let mut store = test_store();
        for i in (0..n).rev() {
            store.record_hook_event(&run("e", Some(i as i64 * 10), 0)).unwrap();
        }
        let s = &store.hook_stats("").unwrap()[0];
        let at = |q: f64| ((n as f64 - 1.0) * q).round() as i64 * 10;
        assert_eq!(s.p50_duration_ms, at(0.50), "{n}");
        assert_eq!(s.p99_duration_ms, at(0.99), "{n}");
        assert_eq!(s.count, n as i64);
        assert_eq!(s.duration_count, n as i64);
        assert_eq!(s.duration_total, (0..n as i128).map(|i| i * 10).sum::<i128>());
    }
}

#[test]
fn statistics_name_each_event_once() {
    let mut store = test_store();
    store.record_hook_event(&run("b", None, 1)).unwrap();
    store.record_hook_event(&run("a", Some(-5), 0)).unwrap();
    store.record_hook_event(&run("b", Some(i64::MAX), 2)).unwrap();
    store.record_hook_event(&run("b", Some(i64::MAX), 0)).unwrap();
    let stats = store.hook_stats("1970").unwrap();
    assert_eq!(stats.len(), 2);
    assert_eq!(stats[0].event, "a");
    assert_eq!((stats[0].p50_duration_ms, stats[0].error_count), (-5, 0));
    assert_eq!(stats[1].event, "b");
    assert_eq!((stats[1].count, stats[1].error_count, stats[1].duration_count), (3, 2, 2));
    assert_eq!(stats[1].duration_total, 2 * (i64::MAX as i128));
    assert!(store.hook_stats("9999").unwrap().is_empty());
    store.record_hook_event(&run("c", None, 0)).unwrap();
    let c = &store.hook_stats("").unwrap()[2];
    assert_eq!((c.p50_duration_ms, c.p99_duration_ms, c.duration_count), (0, 0, 0));
}

#[test]
fn recent_runs_come_newest_first_up_to_the_limit() {
    let mut store = test_store();
    for i in 0..5 {
        let id = store.record_hook_event(&run(if i % 2 == 0 { "x" } else { "y" }, Some(i), 0)).unwrap();
        assert_eq!(id, i + 1);
    }
    let ids = |v: Vec<icm_store::hooks::HookEvent>| v.iter().map(|e| e.id).collect::<Vec<_>>();
    assert_eq!(ids(store.hook_events_recent(3, None).unwrap()), vec![5, 4, 3]);
    assert_eq!(ids(store.hook_events_recent(2, Some("x")).unwrap()), vec![5, 3]);
    assert_eq!(ids(store.hook_events_recent(9, Some("y")).unwrap()), vec![4, 2]);
    assert!(store.hook_events_recent(0, None).unwrap().is_empty());
    let e = &store.hook_events_recent(1, None).unwrap()[0];
    assert_eq!(e.project.as_deref(), Some("p"));
    assert_eq!(e.payload_size, Some(10));
    assert_eq!(e.note.as_deref(), Some("n"));
    assert!(e.ts.secs() > 1_700_000_000);
}

#[test]
fn numbers_of_rows_can_be_used_up() {
    let mut store = test_store();
    store.record_hook_event(&run("x", None, 0)).unwrap();
    store.upsert_code_area("p", "f", None, None, None).unwrap();
    let mut hook = icm_store::hooks::HookRow {
        id: i64::MAX,
        ts: String::new(),
        event: "x".into(),
        project: None,
        session_id: None,
        tool_name: None,
        duration_ms: None,
        exit_code: 0,
        payload_size: None,
        note: None,
    };
    let area = icm_store::code_areas::CodeAreaRow {
        id: i64::MAX,
        project: "p".into(),
        file_path: "f".into(),
        description: None,
        session_id: None,
        tool_name: None,
        touch_count: i64::MAX,
        first_touched_at: String::new(),
        last_touched_at: String::new(),
    };
    hook.note = None;
    let tables = Tables {
        memories: Vec::new(),
        dims: 384,
        pending: Vec::new(),
        code_areas: vec![area],
        hooks: vec![hook],
        facts: Vec::new(),
        hook_counter: None,
    };
    let mut full = SqliteStore::from_tables(tables, false).unwrap();
    assert!(matches!(full.record_hook_event(&run("x", None, 0)), Err(IcmError::Database(_))));
    assert!(matches!(full.upsert_code_area("p", "g", None, None, None), Err(IcmError::Database(_))));
    assert!(matches!(full.upsert_code_area("p", "f", None, None, None), Err(IcmError::Database(_))));
    assert_eq!(full.code_area_count().unwrap(), 1);
}

#[test]
fn path_fragments_match_whole_parts_at_the_end() {
    let mut store = test_store();
    for f in ["src/a.rs", "lib/src/a.rs", "src/ba.rs", "A.RS", "src/a_b.rs", "src/axb.rs"] {
        store.upsert_code_area("p", f, None, None, None).unwrap();
    }
    let found = |s: &SqliteStore, f: &str| {
        let mut v: Vec<String> =
            s.list_code_areas(None, Some(f), None, 10).unwrap().into_iter().map(|a| a.file_path).collect();
        v.sort();
        v
    };
    assert_eq!(found(&store, "a.rs"), vec!["lib/src/a.rs", "src/a.rs"]);
    assert_eq!(found(&store, "src/a.rs"), vec!["lib/src/a.rs", "src/a.rs"]);
    assert_eq!(found(&store, "a_b.rs"), vec!["src/a_b.rs"]);
    assert_eq!(found(&store, "A.RS"), vec!["A.RS"]);
    assert_eq!(found(&store, "%a.rs"), Vec::<String>::new());
    assert_eq!(store.list_code_areas(None, None, None, 2).unwrap().len(), 2);
    assert_eq!(store.list_code_areas(None, None, None, usize::MAX).unwrap().len(), 6);
}

#[test]
fn facts_keep_one_value_per_key() {
    let mut store = test_store();
    store.set_fact("e", "k", "1", "s").unwrap();
    store.set_fact("e", "k", "2", "s").unwrap();
    store.set_fact("e", "k", "1", "s").unwrap();
    let all: Vec<String> = store.history("e", "k").unwrap().into_iter().map(|f| f.value).collect();
    assert_eq!(all, vec!["1", "2", "1"]);
    assert_eq!(store.get_fact("e", "k").unwrap().unwrap().value, "1");
    assert_eq!(store.list_facts("e", None).unwrap().len(), 1);
    assert!(store.get_fact("e", "other").unwrap().is_none());
    assert!(matches!(store.set_fact("", "k", "v", "s"), Err(IcmError::InvalidInput(_))));
    assert_eq!(store.forget_fact("e", "other").unwrap(), 0);
}

#[test]
fn lists_are_ordered_by_time() {
    let at = |nanos: u32| Timestamp::new(1_700_000_000, nanos).unwrap();
    let area = |id: i64, nanos: u32| icm_store::code_areas::CodeAreaRow {
        id,
        project: "p".into(),
        file_path: format!("f{nanos}"),
        description: None,
        session_id: None,
        tool_name: None,
        touch_count: 1,
        first_touched_at: at(nanos).to_rfc3339(),
        last_touched_at: at(nanos).to_rfc3339(),
    };
    let piece = |nanos: u32| {
        (format!("id{nanos}"), "p".into(), "t".into(), "raw".into(), at(nanos).to_rfc3339())
    };
    let tables = Tables {
        memories: Vec::new(),
        dims: 384,
        pending: vec![piece(500_000_001), piece(0), piece(500_000_000)],
        code_areas: vec![area(1, 500_000_000), area(2, 0), area(3, 500_000_001)],
        hooks: Vec::new(),
        facts: Vec::new(),
        hook_counter: None,
    };
    let store = SqliteStore::from_tables(tables, false).unwrap();
    let ids: Vec<String> =
        store.list_pending_extractions(10).unwrap().into_iter().map(|p| p.0).collect();
    assert_eq!(ids, vec!["id0", "id500000000", "id500000001"]);
    let paths = |since: Option<Timestamp>| {
        let v = store.list_code_areas(None, None, since, 10).unwrap();
        v.into_iter().map(|a| a.file_path).collect::<Vec<String>>()
    };
    assert_eq!(paths(None), vec!["f500000001", "f500000000", "f0"]);
    assert_eq!(paths(Some(at(500_000_000))), vec!["f500000001", "f500000000"]);
    assert_eq!(paths(Some(at(500_000_002))), Vec::<String>::new());
}

#[test]
fn statistics_see_the_instant_and_not_its_spelling() {
    let row = |id: i64, ts: &str, event: &str| icm_store::hooks::HookRow {
        id,
        ts: ts.into(),
        event: event.into(),
        project: None,
        session_id: None,
        tool_name: None,
        duration_ms: Some(id),
        exit_code: 0,
        payload_size: None,
        note: None,
    };
    let tables = || Tables {
        memories: Vec::new(),
        dims: 384,
        pending: Vec::new(),
        code_areas: Vec::new(),
        hooks: vec![
            row(1, "2026-01-01T11:59:59.999999999+00:00", "post"),
            row(2, "2026-01-01T12:00:00+00:00", "post"),
            row(3, "2026-01-01T12:00:00.500+00:00", "end"),
            row(4, "yesterday", "odd"),
        ],
        facts: Vec::new(),
        hook_counter: None,
    };
    let mut store = SqliteStore::from_tables(tables(), false).unwrap();
    let counts = |since: &str| -> Vec<(String, i64)> {
        store.hook_stats(since).unwrap().into_iter().map(|s| (s.event, s.count)).collect()
    };
    let expected = vec![("end".to_string(), 1), ("odd".to_string(), 1), ("post".to_string(), 1)];
    for since in [
        "2026-01-01T12:00:00+00:00",
        "2026-01-01T12:00:00Z",
        "2026-01-01T14:00:00+02:00",
        "2026-01-01T06:30:00.000-05:30",
    ] {
        assert_eq!(counts(since), expected, "{since}");
    }
    assert_eq!(counts("zzz"), Vec::<(String, i64)>::new());
    assert_eq!(counts("").len(), 3);

    assert_eq!(store.prune_hook_events("2026-01-01T13:00:00.500+01:00").unwrap(), 2);
    let left: Vec<i64> =
        store.hook_events_recent(10, None).unwrap().into_iter().map(|e| e.id).collect();
    assert_eq!(left, vec![4, 3]);
}

#[test]
fn leap_seconds_read_back() {
    let mut store = test_store();
    let mut m = make_memory("t", "leap");
    m.created_at = Timestamp::new(1_483_228_799, 1_500_000_000).unwrap();
    assert_eq!(m.created_at.to_rfc3339(), "2016-12-31T23:59:60.500+00:00");
    store.store(m.clone()).unwrap();
    assert_eq!(store.get(&m.id).unwrap().unwrap().created_at, m.created_at);
}

#[test]
fn white_space_in_a_topic_makes_no_new_memory() {
    let mut store = test_store();
    let first = store.store(make_memory("my topic", "x")).unwrap();
    assert_eq!(store.store(make_memory(" my   topic", "x")).unwrap(), first);
    assert_eq!(store.count().unwrap(), 1);
}

#[test]
fn embeddings_of_another_size_are_refused_by_name() {
    let mut store = test_store();
    let mut m = make_memory("t", "s");
    let refusal = |r: Result<String, IcmError>| match r {
        Err(IcmError::Database(text)) => text,
        other => panic!("{other:?}"),
    };
    m.embedding = Some(vec![0; 10]);
    assert_eq!(
        refusal(store.store(m.clone())),
        "Dimension mismatch for inserted vector for the \"embedding\" column. \
         Expected 384 dimensions but received 10."
    );
    m.embedding = Some(Vec::new());
    assert_eq!(
        refusal(store.store(m)),
        "Inserted vector for the \"embedding\" column is invalid: \
         zero-length vectors are not supported."
    );
    assert_eq!(store.count().unwrap(), 0);
}

#[test]
fn what_is_at_hand_is_read_as_it_is_kept() {
    let mut row = memory_to_row(&make_memory("t", "s"));
    row.created_at = "no time".into();
    let id = row.id.clone();
    let tables = Tables {
        memories: vec![row],
        dims: 384,
        pending: Vec::new(),
        code_areas: Vec::new(),
        hooks: Vec::new(),
        facts: Vec::new(),
        hook_counter: None,
    };
    let mut store = SqliteStore::from_tables(tables, false).unwrap();
    let first = store.get(&id).unwrap().unwrap();
    let again = store.get_many(&[&id, &id]).unwrap();
    assert_eq!(again.len(), 1);
    assert_eq!(again[0].created_at, first.created_at);
    assert_eq!(store.get(&id).unwrap().unwrap().created_at, first.created_at);
}

#[test]
fn keywords_that_are_too_long_stop_a_search() {
    let mut store = test_store();
    let long = "x".repeat(50_000);
    assert_eq!(store.search_by_keywords(&[&long], 5).unwrap().len(), 0);
    store.store(make_memory("t", "a summary")).unwrap();
    assert!(matches!(
        store.search_by_keywords(&[&long], 5),
        Err(IcmError::Database(ref e)) if e == "LIKE or GLOB pattern too complex"
    ));
    assert_eq!(store.search_by_keywords(&["summary", &long], 5).unwrap().len(), 1);
    assert_eq!(store.search_by_keywords(&[&long[2..]], 5).unwrap().len(), 0);
}

#[test]
fn a_counter_below_zero_moves_and_is_reported() {
    let tables = Tables {
        memories: Vec::new(),
        dims: 384,
        pending: Vec::new(),
        code_areas: Vec::new(),
        hooks: Vec::new(),
        facts: Vec::new(),
        hook_counter: Some(-12),
    };
    let mut store = SqliteStore::from_tables(tables, false).unwrap();
    assert!(matches!(
        store.increment_hook_counter(),
        Err(IcmError::Database(ref e)) if e == "Integer -11 out of range at index 0"
    ));
    assert_eq!(store.hook_counter(), Some(-11));
}

#[test]
fn new_identifiers_have_their_form() {
    let id = make_memory("t", "s").id;
    assert_eq!(id.len(), 26);
    assert!(id.chars().all(|c| c.is_ascii_digit() || c.is_ascii_uppercase()));
}

#[test]
fn sizes_that_cannot_be_indexed_are_refused() {
    for dims in [0, 8193, 9000, usize::MAX] {
        let refused = SqliteStore::in_memory_with_dims(dims);
        assert!(matches!(refused.err(), Some(IcmError::Database(_))), "{dims}");
    }
    for dims in [1, 384, 8192] {
        assert_eq!(SqliteStore::in_memory_with_dims(dims).unwrap().memories().embedding_dims(), dims);
    }
}

#[test]
fn only_vectors_of_the_right_size_are_indexed() {
    let mut m = make_memory("t", "s");
    assert!(!indexed_vector(&memory_to_row(&m), 3));
    m.embedding = Some(vec![1; 3]);
    let mut row = memory_to_row(&m);
    assert!(indexed_vector(&row, 3));
    assert!(!indexed_vector(&row, 2));
    assert!(!indexed_vector(&row, usize::MAX));
    row.embedding = Some(vec![0; 13]);
    assert!(!indexed_vector(&row, 3));
}

#[test]
fn lists_read_back_whatever_the_times_are() {
    let mut store = test_store();
    let mut m = make_memory("t", "far");
    m.created_at = Timestamp::new(253_402_300_800, 0).unwrap();
    m.keywords = vec!["k".into(), "l".into()];
    m.related_ids = vec!["other".into()];
    store.store(m.clone()).unwrap();
    let got = store.get(&m.id).unwrap().unwrap();
    assert_eq!(got.keywords, m.keywords);
    assert_eq!(got.related_ids, m.related_ids);
    assert_ne!(got.created_at, m.created_at);
}
