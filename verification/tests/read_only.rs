//! Stores that must not be changed.
use icm_store::error::IcmError;
use icm_store::memory::{Importance, Memory};
use icm_store::hooks::HookEventInsert;
use icm_store::row::memory_to_row;
use icm_store::store::{SqliteStore, Tables};

fn make_memory(topic: &str, summary: &str) -> Memory {
    Memory::new(topic.into(), summary.into(), Importance::Medium)
}

fn tables(memories: &[&Memory]) -> Tables {
    Tables {
        memories: memories.iter().map(|m| memory_to_row(m)).collect(),
        dims: 384,
        pending: Vec::new(),
        code_areas: Vec::new(),
        hooks: Vec::new(),
        facts: Vec::new(),
        hook_counter: None,
    }
}

fn readonly_store(m: &Memory) -> SqliteStore {
    SqliteStore::from_tables(tables(&[m]), true).unwrap()
}

fn refused_as<T>(r: Result<T, IcmError>) -> String {
    match r {
        Err(IcmError::ReadOnly(op)) => op,
        Err(other) => panic!("expected ReadOnly, got {other:?}"),
        Ok(_) => panic!("expected ReadOnly"),
    }
}

#[test]
fn read_only_recall_path_skips_access_bookkeeping() {
    let seeded = make_memory("project:icm", "seeded memory");
    let mut ro = readonly_store(&seeded);
    ro.update_access(&seeded.id).unwrap();
    ro.batch_update_access(&[&seeded.id]).unwrap();

    // Re-open writable to confirm nothing actually changed.
    let mut kept = tables(&[]);
    kept.memories = (0..ro.memories().count()).map(|i| ro.memories().row(i).clone()).collect();
    let mut rw = SqliteStore::from_tables(kept, false).unwrap();
    let after = rw.get(&seeded.id).unwrap().unwrap();
    assert_eq!(
        after.access_count, seeded.access_count,
        "access_count must NOT have been bumped by a read-only call",
    );
    assert_eq!(
        after.last_accessed, seeded.last_accessed,
        "last_accessed must NOT have been touched by a read-only call",
    );
}

#[test]
fn read_only_mutation_attempts_are_rejected_by_sqlite() {
    let seeded = make_memory("project:icm", "seeded memory");
    let mut ro = readonly_store(&seeded);
    let m = make_memory("project:icm", "should not land");
    let err = ro.store(m).unwrap_err();
    match err {
        IcmError::Database(_) | IcmError::ReadOnly(_) => {}
        other => panic!("expected Database or ReadOnly, got {other:?}"),
    }
}

#[test]
fn every_write_to_a_read_only_store_names_itself() {
    let seeded = make_memory("project:icm", "seeded memory");
    let mut ro = readonly_store(&seeded);
    assert!(ro.is_readonly());
    assert_eq!(refused_as(ro.store(make_memory("t", "s"))), "store");
    assert_eq!(refused_as(ro.update(&seeded)), "update");
    assert_eq!(refused_as(ro.delete(&seeded.id)), "delete");
    assert_eq!(refused_as(ro.prune(1.0f32.to_bits())), "prune");
    assert_eq!(
        refused_as(ro.consolidate_topic("t", make_memory("t", "s"))),
        "consolidate_topic"
    );
    assert_eq!(refused_as(ro.increment_hook_counter()), "increment_hook_counter");
    assert_eq!(refused_as(ro.reset_hook_counter()), "reset_hook_counter");
    assert_eq!(
        refused_as(ro.enqueue_pending_extraction("p", "t", "o")),
        "enqueue_pending_extraction"
    );
    assert_eq!(
        refused_as(ro.delete_pending_extractions(&["x".to_string()])),
        "delete_pending_extractions"
    );
    assert_eq!(ro.delete_pending_extractions(&[]).unwrap(), 0);
    assert_eq!(
        refused_as(ro.upsert_code_area("p", "f", None, None, None)),
        "upsert_code_area"
    );
    let ev = HookEventInsert {
        event: "post".into(),
        project: None,
        session_id: None,
        tool_name: None,
        duration_ms: None,
        exit_code: 0,
        payload_size: None,
        note: None,
    };
    assert_eq!(refused_as(ro.record_hook_event(&ev)), "record_hook_event");
    assert_eq!(
        refused_as(ro.prune_hook_events("2999-01-01T00:00:00Z")),
        "prune_hook_events"
    );
    assert_eq!(refused_as(ro.set_fact("e", "k", "v", "s")), "set_fact");
    assert_eq!(refused_as(ro.forget_fact("e", "k")), "forget_fact");
    assert_eq!(ro.count().unwrap(), 1);
    assert_eq!(ro.hook_event_count().unwrap(), 0);
    assert_eq!(ro.hook_counter(), None);
}

#[test]
fn tables_that_break_a_rule_are_not_taken() {
    let m = make_memory("t", "one");
    let mut twin = make_memory("t", "two");
    twin.id = m.id.clone();
    let same_id = SqliteStore::from_tables(tables(&[&m, &twin]), false);
    assert!(matches!(same_id.err(), Some(IcmError::Database(ref e)) if e == "database is inconsistent"));

    let again = make_memory("T", "one");
    assert!(SqliteStore::from_tables(tables(&[&m, &again]), false).is_err());

    let other = make_memory("u", "one");
    assert_eq!(SqliteStore::from_tables(tables(&[&m, &other]), false).unwrap().count().unwrap(), 2);
}

#[test]
fn blobs_of_another_size_are_read_as_far_as_they_go() {
    let mut short = make_memory("t", "three");
    short.embedding = Some(vec![7; 3]);
    let mut kept = tables(&[&short]);
    if let Some(blob) = &mut kept.memories[0].embedding {
        blob.push(1);
    }
    let mut store = SqliteStore::from_tables(kept, false).unwrap();
    assert_eq!(store.get(&short.id).unwrap().unwrap().embedding, Some(vec![7; 3]));
}
