//! Single rules of the store on chosen values.
use icm_store::bytes::{is_before, same_text, truncate_at_char_boundary};
use icm_store::digest::{summary_hash, to_hex};
use icm_store::embedding::{blob_to_embedding, embedding_to_blob};
use icm_store::error::{db_err, is_missing_table, IcmError};
use icm_store::fts::{is_fts5_syntax_error, sanitize_fts_query};
use icm_store::like::{escape_like_wildcards, like};
use icm_store::memory::{
    importance_rank, max_importance, parse_source, source_data, source_type, validate_and_normalize,
    validate_fields, Importance, Memory, MemorySource,
};
use icm_store::open::{
    after_attempt, backoff_ms, drops_vectors, is_transient_failure, missing_database,
    needs_snapshot, open_error, parse_number, stored_embedding_dims, OpenStage, OpenStep,
};
use icm_store::order::{order_numbers, order_texts};
use icm_store::queries::rank_of_weight;
use icm_store::text::{contains_text, join, sorted_names, split_words, starts_with, trim};
use icm_store::time::{parse_dt, Timestamp, MAX_SECS, MIN_SECS};
use icm_store::uri::{encode_sqlite_uri_path, readonly_uri};

#[test]
fn uri_paths_hold_no_delimiter() {
    assert_eq!(encode_sqlite_uri_path("/tmp/a b.db"), "/tmp/a b.db");
    assert_eq!(encode_sqlite_uri_path("C:\\x\\y.db"), "C:/x/y.db");
    assert_eq!(encode_sqlite_uri_path("100%?#é"), "100%25%3F%23é");
    assert_eq!(readonly_uri("a?b", true), "file:a%3Fb?mode=ro&immutable=1");
    assert_eq!(readonly_uri("/a", false), "file:/a?mode=ro");
}

#[test]
fn cuts_split_no_character() {
    assert_eq!(truncate_at_char_boundary("héllo", 1), "h");
    assert_eq!(truncate_at_char_boundary("héllo", 2), "h");
    assert_eq!(truncate_at_char_boundary("héllo", 3), "hé");
    assert_eq!(truncate_at_char_boundary("héllo", 6), "héllo");
    assert_eq!(truncate_at_char_boundary("\u{1F600}", 3), "");
    assert_eq!(truncate_at_char_boundary("", 0), "");
}

#[test]
fn queries_keep_their_first_bytes_and_tokens() {
    let long = format!("{}\u{1F600} tail", "a".repeat(9_998));
    assert_eq!(sanitize_fts_query(&long), format!("\"{}\"", "a".repeat(9_998)));
    assert_eq!(sanitize_fts_query("a\u{a0}b\u{3000}c"), "\"a\" \"b\" \"c\"");
    assert_eq!(sanitize_fts_query("{x}:\\y"), "\"x\" \"y\"");
}

#[test]
fn like_knows_wildcards_case_and_escapes() {
    assert!(like("src/a.rs", "%/a.rs", None));
    assert!(!like("a.rs", "%/a.rs", None));
    assert!(like("SRC/A.RS", "%/a.rs", None));
    assert!(!like("É", "é", None));
    assert!(like("abc", "a_c", None));
    assert!(!like("abbc", "a_c", None));
    assert!(like("", "%", None));
    assert!(!like("", "_", None));
    assert!(like("100%", "100\\%", Some('\\')));
    assert!(!like("100x", "100\\%", Some('\\')));
    assert!(!like("a", "a\\", Some('\\')));
    assert!(like("a\\", "a\\", None));
    assert_eq!(escape_like_wildcards("50%_a\\b"), "50\\%\\_a\\\\b");
}

#[test]
fn messages_are_told_apart() {
    assert!(is_missing_table("no such table: memories_fts"));
    assert!(!is_missing_table("no such column: vec"));
    assert!(is_fts5_syntax_error(Some("fts5: syntax error near \"AND\"")));
    assert!(!is_fts5_syntax_error(Some("disk I/O error")));
    assert!(!is_fts5_syntax_error(None));
    assert!(matches!(db_err("boom"), IcmError::Database(ref m) if m == "boom"));
}

#[test]
fn fingerprints_are_exact() {
    let expected = "7ff6f1dbc4eae21217ef9138fb8e79a5c7597f8f2d555a1d083d6237c7b17818";
    assert_eq!(summary_hash("topic", "hello world"), expected);
    assert_eq!(summary_hash("  ToPiC ", "Hello \n\t WORLD "), expected);
    assert_ne!(summary_hash("topich", "ello world"), expected);
    assert_eq!(summary_hash("my  topic", "x"), summary_hash("my topic", "x"));
    assert_ne!(summary_hash("mytopic", "x"), summary_hash("my topic", "x"));
    assert_eq!(expected.len(), 64);
    assert_eq!(
        summary_hash("DÉCISIONS", "On y va"),
        "33ed98dac92fd3406ab703ea89b668bf454235cce8492a33c3ab017b069c87a3"
    );
    assert_eq!(to_hex(&vec![0, 15, 16, 171, 255]), "000f10abff");
}

#[test]
fn embeddings_are_little_endian_singles() {
    let e = vec![1.0f32.to_bits(), (-2.5f32).to_bits()];
    let blob = embedding_to_blob(&e);
    assert_eq!(blob, vec![0, 0, 128, 63, 0, 0, 32, 192]);
    assert_eq!(blob_to_embedding(&blob), e);
    assert_eq!(blob_to_embedding(&vec![0, 0, 128, 63, 7]), vec![1.0f32.to_bits()]);
    assert_eq!(blob_to_embedding(&Vec::new()), Vec::<u32>::new());
}

#[test]
fn importance_ranks_and_reads_back() {
    let all = [Importance::Low, Importance::Medium, Importance::High, Importance::Critical];
    for (i, a) in all.iter().enumerate() {
        assert_eq!(importance_rank(*a), i as u8 + 1);
        assert_eq!(Importance::parse(&a.text()), *a);
        for b in &all[..=i] {
            assert_eq!(max_importance(*a, *b), *a);
            assert_eq!(max_importance(*b, *a), *a);
        }
    }
    assert_eq!(Importance::parse("urgent"), Importance::Medium);
}

#[test]
fn sources_read_back() {
    let s = MemorySource::ClaudeCode { session_id: "s".into(), file_path: Some("f".into()) };
    assert_eq!(source_type(&s), "claude_code");
    let back = parse_source(source_type(&s), &source_data(&s));
    assert!(matches!(back, MemorySource::ClaudeCode { ref session_id, file_path: Some(ref f) }
        if session_id == "s" && f == "f"));
    let c = MemorySource::Conversation { thread_id: "t".into() };
    assert_eq!(source_type(&c), "conversation");
    assert!(matches!(parse_source("conversation", &source_data(&c)),
        MemorySource::Conversation { ref thread_id } if thread_id == "t"));
    assert_eq!(source_type(&MemorySource::Manual), "manual");
    assert!(source_data(&MemorySource::Manual).is_none());
    assert!(matches!(parse_source("conversation", &None), MemorySource::Manual));
    assert!(matches!(parse_source("manual", &Some(c)), MemorySource::Manual));
}

#[test]
fn fields_are_checked_in_order() {
    let reason = |t: &str, s: &str| match validate_fields(t, s) {
        Err(IcmError::InvalidInput(m)) => m,
        other => panic!("expected InvalidInput, got {other:?}"),
    };
    assert_eq!(reason("", ""), "topic cannot be empty");
    assert_eq!(reason("t\0", " \n"), "summary cannot be empty");
    assert_eq!(reason("t\0\n", "s\0"), "topic must not contain NUL bytes");
    assert_eq!(reason("t\n", "s\0"), "summary must not contain NUL bytes");
    assert_eq!(reason("t\r", "s"), "topic must not contain newline / CR / tab characters");
    assert_eq!(reason("a\tb", "s"), "topic must not contain newline / CR / tab characters");
    assert_eq!(reason(&"é".repeat(129), "s"), "topic exceeds 256 bytes");
    assert_eq!(reason("t", &"s".repeat(65_537)), "summary exceeds 65536 bytes");
    assert!(validate_fields(&"é".repeat(128), &"s".repeat(65_536)).is_ok());
    let m = Memory::new(" a b ".into(), " s ".into(), Importance::Low);
    let n = validate_and_normalize(m).unwrap();
    assert_eq!(n.topic, "a b");
    assert_eq!(n.summary, " s ");
}

#[test]
fn opening_is_retried_while_another_process_sets_up() {
    assert!(is_transient_failure("table memories already exists"));
    assert!(is_transient_failure("database is locked"));
    assert!(is_transient_failure("database is busy"));
    assert!(is_transient_failure("vtable constructor failed: memories_fts"));
    assert!(!is_transient_failure("file is not a database"));
    assert_eq!(after_attempt(0, None), OpenStep::Ready);
    assert_eq!(after_attempt(0, Some("database is locked")), OpenStep::Retry { attempt: 1 });
    assert_eq!(after_attempt(38, Some("database is locked")), OpenStep::Retry { attempt: 39 });
    assert_eq!(after_attempt(39, Some("database is locked")), OpenStep::GiveUp);
    assert_eq!(after_attempt(0, Some("file is not a database")), OpenStep::GiveUp);
    assert_eq!(backoff_ms(0, 39), 0);
    assert_eq!(backoff_ms(1, 0), 15);
    assert_eq!(backoff_ms(7, 83), 108);
    assert_eq!(backoff_ms(39, 999_999_999), 339);
}

#[test]
fn stored_dims_need_file_table_and_number() {
    assert_eq!(stored_embedding_dims(false, false, None), None);
    assert_eq!(stored_embedding_dims(true, false, Some("1024")), None);
    assert_eq!(stored_embedding_dims(true, true, None), None);
    assert_eq!(stored_embedding_dims(true, true, Some("1024")), Some(1024));
    assert_eq!(stored_embedding_dims(true, true, Some("many")), None);
    for s in ["0", "+7", "007", "18446744073709551615", "18446744073709551616", "", "+", "-1", "1 ", "1e3"] {
        assert_eq!(parse_number(s), s.parse().ok(), "{s}");
    }
}

#[test]
fn vectors_of_another_size_are_dropped() {
    assert!(!drops_vectors(None, 384));
    assert!(!drops_vectors(Some("384"), 384));
    assert!(drops_vectors(Some("1024"), 384));
    assert!(drops_vectors(Some("many"), 384));
}

#[test]
fn open_errors_say_what_failed() {
    assert!(matches!(missing_database("/x.db"),
        IcmError::NotFound(ref m) if m == "database not found at /x.db"));
    let text = |stage| match open_error(stage, "why") {
        IcmError::Database(m) => m,
        other => panic!("expected Database, got {other:?}"),
    };
    assert_eq!(text(OpenStage::Directory), "cannot create db directory: why");
    assert_eq!(text(OpenStage::File), "cannot open database: why");
    assert_eq!(text(OpenStage::ReadOnlyFile), "cannot open database read-only: why");
    assert_eq!(text(OpenStage::InMemory), "cannot open in-memory db: why");
    assert!(!needs_snapshot(true, true));
    assert!(needs_snapshot(true, false));
    assert!(needs_snapshot(false, false));
}

#[test]
fn instants_are_those_of_the_calendar() {
    for (secs, nanos) in [
        (0, 0),
        (MIN_SECS, 0),
        (MIN_SECS - 1, 0),
        (MAX_SECS, 999_999_999),
        (MAX_SECS + 1, 0),
        (59, 1_999_999_999),
        (58, 1_000_000_000),
        (-1, 1_500_000_000),
        (-2, 1_500_000_000),
        (59, 2_000_000_000),
    ] {
        let expected = chrono::DateTime::from_timestamp(secs, nanos).is_some();
        assert_eq!(Timestamp::new(secs, nanos).is_some(), expected, "{secs} {nanos}");
    }
}

#[test]
fn times_read_back_from_their_texts() {
    let t = Timestamp::new(1_700_000_000, 123_456_000).unwrap();
    assert_eq!(t.to_rfc3339(), "2023-11-14T22:13:20.123456+00:00");
    let now = Timestamp::new(5, 0).unwrap();
    assert_eq!(parse_dt(&t.to_rfc3339(), now), t);
    assert_eq!(parse_dt("2023-11-14T23:13:20.123456+01:00", now), t);
    assert_eq!(parse_dt("yesterday", now), now);
    for secs in [-62_167_219_200, 253_402_300_799] {
        let edge = Timestamp::new(secs, 999_999_999).unwrap();
        assert_eq!(parse_dt(&edge.to_rfc3339(), now), edge);
    }
    let far = Timestamp::new(253_402_300_800, 0).unwrap();
    assert_eq!(parse_dt(&far.to_rfc3339(), now), now);
    assert!(Timestamp::now().secs() > 1_700_000_000);
}

#[test]
fn now_is_what_the_clock_says() {
    let before = chrono::Utc::now();
    let now = Timestamp::now();
    let after = chrono::Utc::now();
    assert!(now.nanos() < 1_000_000_000);
    let read = chrono::DateTime::from_timestamp(now.secs(), now.nanos()).unwrap();
    assert!(before <= read && read <= after, "{before} {read} {after}");
}

#[test]
fn texts_of_times_are_ordered_as_the_times() {
    let ascending = [
        (-62_167_219_200, 0),
        (-1, 999_999_999),
        (0, 0),
        (0, 1),
        (0, 1_000),
        (0, 1_000_000),
        (0, 1_000_001),
        (0, 500_000_000),
        (0, 500_000_001),
        (0, 999_999_999),
        (1, 0),
        (59, 999_999_999),
        (59, 1_000_000_000),
        (59, 1_500_000_000),
        (60, 0),
        (253_402_300_799, 999_999_999),
    ];
    let texts: Vec<String> =
        ascending.iter().map(|t| Timestamp::new(t.0, t.1).unwrap().to_rfc3339()).collect();
    for i in 0..texts.len() {
        for j in 0..texts.len() {
            assert_eq!(is_before(&texts[i], &texts[j]), i < j, "{} {}", texts[i], texts[j]);
        }
    }
}

#[test]
fn texts_are_taken_apart_and_put_together() {
    assert_eq!(trim(" \u{2003}a b\u{85}\n"), "a b");
    assert_eq!(trim(" \t "), "");
    assert_eq!(split_words(" a  bc\nd "), vec!["a", "bc", "d"]);
    assert_eq!(join(&split_words(" a  bc\nd "), "--"), "a--bc--d");
    assert!(contains_text("abcab", "cab"));
    assert!(contains_text("abc", ""));
    assert!(!contains_text("abc", "abcd"));
    assert!(starts_with("topic:x", "topic:"));
    assert!(!starts_with("t", "topic"));
    assert!(same_text("é", "é"));
    assert!(!same_text("e", "é"));
}

#[test]
fn orders_are_stable() {
    assert!(is_before("a", "b"));
    assert!(is_before("a", "aa"));
    assert!(!is_before("a", "a"));
    assert!(is_before("z", "é"));
    assert_eq!(order_texts(&vec!["b", "a", "b", "a"], false), vec![1, 3, 0, 2]);
    assert_eq!(order_texts(&vec!["b", "a", "b", "a"], true), vec![0, 2, 1, 3]);
    assert_eq!(order_numbers(&vec![3, -1, 3, 0], false), vec![1, 3, 0, 2]);
    assert_eq!(order_numbers(&vec![3, -1, 3, 0], true), vec![0, 2, 3, 1]);
    assert_eq!(sorted_names(&vec!["b", "a", "b", "c"]), vec!["a", "b", "c"]);
}

#[test]
fn weights_are_ordered_as_numbers() {
    let mut weights = [0.5f32, -0.25, 0.0, -1.0, 2.0, f32::INFINITY, f32::NEG_INFINITY, 1e-40];
    weights.sort_by(|a, b| a.partial_cmp(b).unwrap());
    for pair in weights.windows(2) {
        assert!(rank_of_weight(pair[0].to_bits()) < rank_of_weight(pair[1].to_bits()));
    }
    assert_eq!(rank_of_weight(0.0f32.to_bits()), rank_of_weight((-0.0f32).to_bits()));
}
