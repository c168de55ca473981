//! Progress tables and remembered frontiers.

use std::sync::Arc;

use ducklake_batches::error::ErrorKind;
use ducklake_batches::replay::{later_progress, progress_from_rows, TableStreamingProgress};
use ducklake_batches::schema::DuckLakeTableName;
use ducklake_batches::sequence::{EventSequenceKey, PgLsn};
use ducklake_batches::statements::{
    build_progress_queries, build_progress_query, build_progress_statements,
    helper_table_statement, progress_helper_tables, HelperTableStep,
};
use ducklake_batches::streaming_progress::{
    StreamingProgress, StreamingProgressCache, StreamingProgressTable,
    SHARED_STREAMING_PROGRESS_TABLE,
};
use parking_lot::Mutex;

fn key(lsn: u64, ordinal: u64) -> EventSequenceKey {
    EventSequenceKey::new(PgLsn(lsn), ordinal)
}

#[test]
fn suffix_names_a_reserved_helper_and_rejects_unsafe_input() {
    let table = StreamingProgressTable::with_suffix("pipeline_7").unwrap();
    assert_eq!(table.name(), "__etl_streaming_progress_pipeline_7");
    assert_eq!(table.legacy(), Some(SHARED_STREAMING_PROGRESS_TABLE));
    assert_eq!(
        table.written_tables(),
        ["__etl_streaming_progress_pipeline_7", SHARED_STREAMING_PROGRESS_TABLE]
    );
    assert!(DuckLakeTableName::new("main", table.name()).is_internal_helper());

    let shared = StreamingProgressTable::default();
    assert_eq!(shared.name(), SHARED_STREAMING_PROGRESS_TABLE);
    assert_eq!(shared.legacy(), None);
    assert_eq!(shared.written_tables(), [SHARED_STREAMING_PROGRESS_TABLE]);

    for suffix in ["", "a-b", "a\"b", "a b", "é", "x;drop", "Pipeline_7", "PIPELINE_7"] {
        let error = StreamingProgressTable::with_suffix(suffix).unwrap_err();
        assert_eq!(error.kind(), ErrorKind::ConfigError);
        assert_eq!(error.description(), "Invalid DuckLake streaming progress table suffix");
    }
}

#[test]
fn cache_is_scoped_to_one_epoch_and_forgets_on_request() {
    // The host shares one cache between table tasks.
    let cache = Arc::new(Mutex::new(StreamingProgressCache::new()));
    let table = DuckLakeTableName::new("public", "users");
    let other = DuckLakeTableName::new("public", "orders");
    assert_eq!(cache.lock().get(&table, "e1"), None);

    cache.lock().record(&table, "e1", None);
    assert_eq!(cache.lock().get(&table, "e1"), Some(None));
    cache.lock().record(&table, "e1", Some(key(10, 2)));
    cache.lock().record(&other, "e1", Some(key(3, 0)));
    assert_eq!(cache.lock().get(&table, "e1"), Some(Some(key(10, 2))));
    // A frontier from another epoch is never reused.
    assert_eq!(cache.lock().get(&table, "e2"), None);

    cache.lock().forget(&table);
    assert_eq!(cache.lock().get(&table, "e1"), None);
    assert_eq!(cache.lock().get(&other, "e1"), Some(Some(key(3, 0))));

    // Clones share state: the destination hands clones to table tasks.
    let clone = Arc::clone(&cache);
    clone.lock().forget(&other);
    assert_eq!(cache.lock().get(&other, "e1"), None);
}

#[test]
fn invalid_suffix_is_named_in_its_error() {
    let error = StreamingProgressTable::with_suffix("a b").unwrap_err();
    assert_eq!(
        error.detail.as_deref(),
        Some("Suffix `a b` must be nonempty lowercase ASCII letters, digits or underscores")
    );
}

#[test]
fn later_record_replaces_the_epoch() {
    let mut cache = StreamingProgressCache::new();
    let table = DuckLakeTableName::new("public", "users");
    cache.record(&table, "e1", Some(key(1, 0)));
    cache.record(&table, "e2", Some(key(2, 0)));
    assert_eq!(cache.get(&table, "e1"), None);
    assert_eq!(cache.get(&table, "e2"), Some(Some(key(2, 0))));
    cache.forget(&DuckLakeTableName::new("public", "orders"));
    assert_eq!(cache.get(&table, "e2"), Some(Some(key(2, 0))));
}

#[test]
fn progress_starts_with_nothing_confirmed() {
    let table = StreamingProgressTable::with_suffix("x").unwrap();
    let progress = StreamingProgress::new(table);
    assert_eq!(progress.table().name(), "__etl_streaming_progress_x");
    assert_eq!(progress.cache().get(&DuckLakeTableName::new("public", "users"), "e1"), None);
}

#[test]
fn progress_remembers_what_is_recorded_through_it() {
    let users = DuckLakeTableName::new("public", "users");
    let mut progress = StreamingProgress::new(StreamingProgressTable::default());
    progress.cache_mut().record(&users, "e1", Some(key(7, 1)));
    assert_eq!(progress.cache().get(&users, "e1"), Some(Some(key(7, 1))));
    assert_eq!(progress.table().name(), "__etl_streaming_progress");
    progress.cache_mut().forget(&users);
    assert_eq!(progress.cache().get(&users, "e1"), None);
}

#[test]
fn distinct_suffixes_name_distinct_tables() {
    let one = StreamingProgressTable::with_suffix("a").unwrap();
    let two = StreamingProgressTable::with_suffix("a_").unwrap();
    assert_ne!(one.name(), two.name());
}

#[test]
fn forgetting_again_changes_nothing() {
    let users = DuckLakeTableName::new("public", "users");
    let orders = DuckLakeTableName::new("public", "orders");
    let mut cache = StreamingProgressCache::new();
    cache.record(&users, "e1", Some(key(1, 0)));
    cache.record(&orders, "e1", Some(key(2, 0)));
    for _ in 0..2 {
        cache.forget(&users);
        assert_eq!(cache.get(&users, "e1"), None);
        assert_eq!(cache.get(&orders, "e1"), Some(Some(key(2, 0))));
    }
}

#[test]
fn frontier_is_unknown_during_an_attempt() {
    let users = DuckLakeTableName::new("public", "users");
    let mut progress = StreamingProgress::new(StreamingProgressTable::default());
    progress.attempt_ended(&users, "e1", Some(Some(key(1, 0))));
    assert_eq!(progress.attempt_started(&users, "e1"), Some(Some(key(1, 0))));
    assert_eq!(progress.cache().get(&users, "e1"), None);
    progress.attempt_ended(&users, "e1", None);
    assert_eq!(progress.attempt_started(&users, "e1"), None);
    progress.attempt_ended(&users, "e1", Some(None));
    assert_eq!(progress.attempt_started(&users, "e1"), Some(None));
}

#[test]
fn later_frontier_wins() {
    let at = |lsn, ordinal| Some(TableStreamingProgress { last_sequence_key: key(lsn, ordinal) });
    assert_eq!(later_progress(None, None), None);
    assert_eq!(later_progress(at(1, 0), None), at(1, 0));
    assert_eq!(later_progress(None, at(1, 0)), at(1, 0));
    assert_eq!(later_progress(at(300, 0), at(200, 9)), at(300, 0));
    assert_eq!(later_progress(at(200, 1), at(200, 2)), at(200, 2));
    assert_eq!(progress_from_rows(&vec![]), None);
    assert_eq!(progress_from_rows(&vec![None, None]), None);
    assert_eq!(progress_from_rows(&vec![None, Some((200, 0))]), at(200, 0));
    assert_eq!(progress_from_rows(&vec![Some((300, 0)), Some((200, 0))]), at(300, 0));
}

#[test]
fn progress_statements_name_every_written_table() {
    let users = DuckLakeTableName::new("public", "users");
    let own = StreamingProgressTable::with_suffix("x").unwrap();
    let statements = build_progress_statements(&own, &users, "e1", key(7, 2));
    let sql: Vec<&str> = statements.iter().map(|statement| statement.sql.as_str()).collect();
    assert_eq!(
        sql,
        ["__etl_streaming_progress_x", "__etl_streaming_progress"].map(|name| format!(
            "INSERT INTO lake.\"{name}\"\n         (table_name, replay_epoch, last_commit_lsn, \
             last_tx_ordinal, updated_at)\n         VALUES ('public.users', 'e1', 7, 2, \
             current_timestamp);"
        ))
    );
    let shared = StreamingProgressTable::default();
    assert_eq!(build_progress_statements(&shared, &users, "e1", key(7, 2)).len(), 1);

    let queries = build_progress_queries(&own, &users, "e1");
    assert_eq!(queries.len(), 2);
    for (query, name) in queries.iter().zip(own.written_tables()) {
        assert_eq!(query.sql, build_progress_query(name, &users, "e1").sql);
        assert!(query.sql.contains(&format!("FROM lake.\"{name}\"\n")));
    }
}

#[test]
fn every_written_table_is_created() {
    let own = StreamingProgressTable::with_suffix("x").unwrap();
    let tables = progress_helper_tables(&own);
    let names: Vec<&str> = tables.iter().map(|table| table.as_str()).collect();
    assert_eq!(names, own.written_tables());
    for (table, name) in tables.iter().zip(own.written_tables()) {
        let statement = helper_table_statement(table, HelperTableStep::Create).unwrap();
        assert!(statement.sql.contains(&format!("lake.\"{name}\"")));
    }
    assert_eq!(progress_helper_tables(&StreamingProgressTable::default()).len(), 1);
}
