//! Values that are read back, and the retries of a read.

use ducklake_batches::batch_kind::DuckLakeTableBatchKind;
use ducklake_batches::data::{Cell, Scalar, TableRow, TextKind};
use ducklake_batches::error::{ErrorKind, EtlError};
use ducklake_batches::identity::{
    delete_key_components, identity_predicate, DeletePredicateRowRef,
};
use ducklake_batches::partial_update::{
    PartialUpdateRecoveryKey, PartialUpdateRecoveryRequest, RecoveredPartialRows,
};
use ducklake_batches::recovery_read::{
    recovery_failure_description, PartialUpdateRecoveryOutcome, RecoveryRead, RecoveryStage,
};
use ducklake_batches::retry::{
    commit_retry_policy, exhausted_batch_error, is_ducklake_shutdown_requested_error,
    progress_for_attempt, RetryLoop, RetryStep,
};
use ducklake_batches::replay::TableStreamingProgress;
use ducklake_batches::schema::{
    ColumnSchema, ColumnType, DuckLakeTableName, ReplicatedTableSchema, TypeKind,
};
use ducklake_batches::sequence::{EventSequenceKey, PgLsn};
use ducklake_batches::stored_value::{
    read_expression, unit_to_nanos, value_to_cell, value_to_integer, StoredScalar, StoredValue,
    TimeUnit,
};

fn key_schema(value_type: ColumnType) -> ReplicatedTableSchema {
    ReplicatedTableSchema::new(
        "public.rows",
        vec![
            ColumnSchema::new("id", ColumnType::new(TypeKind::Int8, false, "int8")).with_identity(),
            ColumnSchema::new("value", value_type),
        ],
    )
}

fn key_request(schema: &ReplicatedTableSchema, ids: &[i64]) -> PartialUpdateRecoveryRequest {
    let keys = ids
        .iter()
        .map(|id| {
            let key = Cell::Value(Scalar::I64(*id));
            PartialUpdateRecoveryKey {
                predicate: identity_predicate(&vec![(&schema.column_schemas()[0], &key)]),
                components: delete_key_components(
                    schema,
                    DeletePredicateRowRef::Key(&TableRow::new(vec![Cell::Value(Scalar::I64(*id))])),
                )
                .unwrap(),
                mutation_index: 0,
            }
        })
        .collect();
    PartialUpdateRecoveryRequest::new(keys, vec![1], usize::MAX)
}

/// Round-trips one stored value through the recovery read.
fn recovered_value(kind: TypeKind, is_array: bool, value: StoredValue) -> Cell {
    let schema = key_schema(ColumnType::new(kind, is_array, "type"));
    let request = key_request(&schema, &[1]);
    let mut read = RecoveryRead::new(&schema, &request).unwrap();
    let table_name = DuckLakeTableName::new("public", "rows");
    read.next_statement(&table_name, &schema, &request).expect("one statement");
    let stored = vec![StoredValue::Scalar(StoredScalar::BigInt(1)), value];
    read.row(&schema, &request, &stored).unwrap();
    read.statement_done(&schema, &request);
    assert!(read.next_statement(&table_name, &schema, &request).is_none());
    let outcome = read.into_outcome(&schema, &request);
    assert_eq!(outcome.covered_keys, 1);
    let rows = outcome.recovered.rows_for("\"id\" = 1").expect("the identity was requested");
    assert_eq!(rows.len(), 1);
    rows[0].values()[0].clone()
}

fn scalar(kind: TypeKind, value: StoredScalar) -> Cell {
    recovered_value(kind, false, StoredValue::Scalar(value))
}

fn stored_text(text: &str) -> StoredScalar {
    StoredScalar::Text { text: text.to_owned(), numeric: None, time_tz: None }
}

fn text(kind: TextKind, value: &str) -> Cell {
    Cell::Value(Scalar::Text(kind, value.to_owned()))
}

/// Days between 1970-01-01 and a date.
fn day(year: i32, month: u32, day: u32) -> i32 {
    let epoch = chrono::NaiveDate::from_ymd_opt(1970, 1, 1).unwrap();
    let date = chrono::NaiveDate::from_ymd_opt(year, month, day).unwrap();
    i32::try_from(date.signed_duration_since(epoch).num_days()).unwrap()
}

#[test]
fn recovery_reads_every_stored_column_shape_back() {
    let uuid = "01900000-0000-7000-8000-000000000001";
    let uuid_value = uuid::Uuid::parse_str(uuid).unwrap().as_u128();
    let moment = i64::from(day(2026, 9, 14)) * 86_400 + 12 * 3600 + 34 * 60 + 56;

    assert_eq!(scalar(TypeKind::Other, stored_text("toast")), text(TextKind::Plain, "toast"));
    assert_eq!(scalar(TypeKind::Jsonb, stored_text("{\"a\":1}")), text(TextKind::Json, "{\"a\":1}"));
    assert_eq!(scalar(TypeKind::Bool, StoredScalar::Boolean(true)), Cell::Value(Scalar::Bool(true)));
    assert_eq!(scalar(TypeKind::Int2, StoredScalar::SmallInt(7)), Cell::Value(Scalar::I16(7)));
    assert_eq!(scalar(TypeKind::Int4, StoredScalar::Int(-7)), Cell::Value(Scalar::I32(-7)));
    assert_eq!(
        scalar(TypeKind::Int8, StoredScalar::BigInt(9223372036854775807)),
        Cell::Value(Scalar::I64(i64::MAX))
    );
    assert_eq!(
        scalar(TypeKind::Oid, StoredScalar::UBigInt(4294967295)),
        Cell::Value(Scalar::U32(u32::MAX))
    );
    assert_eq!(
        scalar(
            TypeKind::Float4,
            StoredScalar::Float { single: 0.5f32.to_string(), double: 0.5f64.to_string() },
        ),
        text(TextKind::Float4, "0.5")
    );
    assert_eq!(
        scalar(
            TypeKind::Float8,
            StoredScalar::Double { single: (-0.25f32).to_string(), double: (-0.25f64).to_string() },
        ),
        text(TextKind::Float8, "-0.25")
    );
    // A decimal column and a text column both read back through their text.
    for _ in 0..2 {
        assert_eq!(
            scalar(
                TypeKind::Numeric,
                StoredScalar::Text {
                    text: "12.34".to_owned(),
                    numeric: Some("12.34".to_owned()),
                    time_tz: None,
                },
            ),
            text(TextKind::Numeric, "12.34")
        );
    }
    assert_eq!(
        scalar(TypeKind::Date, StoredScalar::Date32(day(2026, 9, 14))),
        text(TextKind::Date, "2026-09-14")
    );
    assert_eq!(
        scalar(
            TypeKind::Time,
            StoredScalar::Time64(
                TimeUnit::Microsecond,
                (12 * 3600 + 34 * 60 + 56) * 1_000_000 + 123_456,
            ),
        ),
        text(TextKind::Time, "12:34:56.123456")
    );
    assert_eq!(
        scalar(
            TypeKind::Timestamp,
            StoredScalar::Timestamp(TimeUnit::Microsecond, moment * 1_000_000),
        ),
        text(TextKind::Timestamp, "2026-09-14 12:34:56")
    );
    assert_eq!(
        scalar(
            TypeKind::TimestampTz,
            StoredScalar::Timestamp(TimeUnit::Microsecond, moment * 1_000_000),
        ),
        text(TextKind::TimestampTz, "2026-09-14 12:34:56+00")
    );
    assert_eq!(scalar(TypeKind::Uuid, stored_text(uuid)), Cell::Value(Scalar::Uuid(uuid_value)));
    assert_eq!(
        scalar(TypeKind::Bytea, StoredScalar::Blob(vec![0xAA, 0xBB])),
        Cell::Value(Scalar::Bytes(vec![0xAA, 0xBB]))
    );
    assert_eq!(
        scalar(
            TypeKind::TimeTz,
            StoredScalar::Text {
                text: "12:34:56+02".to_owned(),
                numeric: None,
                time_tz: Some("12:34:56+02".to_owned()),
            },
        ),
        text(TextKind::TimeTz, "12:34:56+02")
    );
    assert_eq!(scalar(TypeKind::Other, StoredScalar::Null), Cell::Null);
    assert_eq!(
        recovered_value(
            TypeKind::Int4,
            true,
            StoredValue::List(vec![
                StoredScalar::Int(1),
                StoredScalar::Null,
                StoredScalar::Int(3),
            ]),
        ),
        Cell::Array(vec![Some(Scalar::I32(1)), None, Some(Scalar::I32(3))])
    );
    assert_eq!(
        recovered_value(
            TypeKind::Other,
            true,
            StoredValue::List(vec![stored_text("a"), StoredScalar::Null]),
        ),
        Cell::Array(vec![Some(Scalar::Text(TextKind::Plain, "a".to_owned())), None])
    );
    assert_eq!(
        recovered_value(TypeKind::Uuid, true, StoredValue::Array(vec![stored_text(uuid)])),
        Cell::Array(vec![Some(Scalar::Uuid(uuid_value))])
    );
}

/// What a column makes of a stored value, if it can hold it.
fn cell_of(kind: TypeKind, value: StoredScalar) -> Option<Cell> {
    value_to_cell(&ColumnType::new(kind, false, "t"), &StoredValue::Scalar(value)).ok()
}

#[test]
fn values_that_do_not_fit_their_column_are_refused() {
    let error = value_to_cell(
        &ColumnType::new(TypeKind::Int2, false, "int2"),
        &StoredValue::Scalar(StoredScalar::Int(40_000)),
    )
    .unwrap_err();
    assert_eq!(error.kind(), ErrorKind::ConversionError);
    assert_eq!(error.description(), "DuckLake recovered value does not match its column type");
    assert_eq!(
        error.detail.as_deref(),
        Some("Column type int2 cannot be read back from its stored value")
    );

    // A list in a scalar column, a scalar in an array column, and an array with
    // one element that does not fit.
    for (is_array, value) in [
        (false, StoredValue::List(vec![])),
        (true, StoredValue::Scalar(StoredScalar::Int(1))),
        (true, StoredValue::Array(vec![StoredScalar::Int(1), StoredScalar::Boolean(true)])),
    ] {
        assert!(value_to_cell(&ColumnType::new(TypeKind::Int4, is_array, "t"), &value).is_err());
    }
    assert_eq!(
        value_to_cell(
            &ColumnType::new(TypeKind::Int4, true, "t"),
            &StoredValue::Scalar(StoredScalar::Null),
        ),
        Ok(Cell::Null)
    );
    for kind in [
        TypeKind::Bool,
        TypeKind::Int2,
        TypeKind::Int4,
        TypeKind::Int8,
        TypeKind::Oid,
        TypeKind::Float4,
        TypeKind::Float8,
        TypeKind::Numeric,
        TypeKind::Date,
        TypeKind::Time,
        TypeKind::TimeTz,
        TypeKind::Timestamp,
        TypeKind::TimestampTz,
        TypeKind::Uuid,
        TypeKind::Json,
        TypeKind::Jsonb,
        TypeKind::Bytea,
        TypeKind::Other,
    ] {
        assert_eq!(cell_of(kind, StoredScalar::Other), None, "{kind:?}");
    }
    // A text the source codec reads nothing from.
    assert_eq!(cell_of(TypeKind::Numeric, stored_text("abc")), None);
    assert_eq!(cell_of(TypeKind::TimeTz, stored_text("abc")), None);
}

#[test]
fn integers_of_every_width_are_read_within_bounds() {
    for value in [
        StoredScalar::TinyInt(5),
        StoredScalar::SmallInt(5),
        StoredScalar::Int(5),
        StoredScalar::BigInt(5),
        StoredScalar::HugeInt(5),
        StoredScalar::UTinyInt(5),
        StoredScalar::USmallInt(5),
        StoredScalar::UInt(5),
        StoredScalar::UBigInt(5),
    ] {
        assert_eq!(value_to_integer(&value, -10, 10), Some(5));
        assert_eq!(value_to_integer(&value, 5, 5), Some(5));
        assert_eq!(value_to_integer(&value, 6, 10), None);
        assert_eq!(value_to_integer(&value, -10, 4), None);
    }
    assert_eq!(value_to_integer(&StoredScalar::UBigInt(u64::MAX), i64::MIN, i64::MAX), None);
    assert_eq!(value_to_integer(&StoredScalar::HugeInt(i128::MIN), i64::MIN, i64::MAX), None);
    assert_eq!(value_to_integer(&StoredScalar::Boolean(true), 0, 1), None);
    assert_eq!(cell_of(TypeKind::Oid, StoredScalar::Int(-1)), None);
}

#[test]
fn uuids_are_read_in_every_form() {
    let value = 0x67e55044_10b1_426f_9247_bb680e5fe0c8u128;
    for form in [
        "67e5504410b1426f9247bb680e5fe0c8",
        "67E55044-10B1-426F-9247-BB680E5FE0C8",
        "{67e55044-10b1-426f-9247-bb680e5fe0c8}",
        "urn:uuid:67e55044-10b1-426f-9247-bb680e5fe0c8",
        "URN:UUID:67e55044-10b1-426f-9247-bb680e5fe0c8",
    ] {
        assert_eq!(
            cell_of(TypeKind::Uuid, stored_text(form)),
            Some(Cell::Value(Scalar::Uuid(value)))
        );
    }
    for form in [
        "",
        "67e55044-10b1-426f-9247-bb680e5fe0c",
        "67e5504g10b1426f9247bb680e5fe0c8",
        "67e550441-0b1-426f-9247-bb680e5fe0c8",
        "(67e55044-10b1-426f-9247-bb680e5fe0c8)",
        "urn-uuid:67e55044-10b1-426f-9247-bb680e5fe0c8",
    ] {
        assert_eq!(cell_of(TypeKind::Uuid, stored_text(form)), None);
    }
}

#[test]
fn documents_are_read_as_compact_text() {
    assert_eq!(
        cell_of(TypeKind::Json, stored_text(" { \"a\" : [ 1 , null ] } ")),
        Some(text(TextKind::Json, "{\"a\":[1,null]}"))
    );
    assert_eq!(cell_of(TypeKind::Jsonb, stored_text("{")), None);
    assert_eq!(
        cell_of(
            TypeKind::Other,
            StoredScalar::Enum { text: "red".to_owned(), numeric: None, time_tz: None },
        ),
        Some(text(TextKind::Plain, "red"))
    );
}

#[test]
fn dates_are_read_between_the_first_and_the_last() {
    let date = |day: i32| cell_of(TypeKind::Date, StoredScalar::Date32(day));
    assert_eq!(date(0), Some(text(TextKind::Date, "1970-01-01")));
    assert_eq!(date(-1), Some(text(TextKind::Date, "1969-12-31")));
    assert_eq!(date(-96_465_292), Some(text(TextKind::Date, "-262143-01-01")));
    assert_eq!(date(-96_465_293), None);
    assert_eq!(date(95_026_236), Some(text(TextKind::Date, "+262142-12-31")));
    assert_eq!(date(95_026_237), None);
    assert_eq!(date(i32::MIN), None);
    assert_eq!(date(i32::MAX), None);
}

#[test]
fn times_are_read_within_one_day() {
    let time = |unit: TimeUnit, amount: i64| {
        cell_of(TypeKind::Time, StoredScalar::Time64(unit, amount))
    };
    assert_eq!(time(TimeUnit::Second, 0), Some(text(TextKind::Time, "00:00:00")));
    assert_eq!(time(TimeUnit::Second, 86_399), Some(text(TextKind::Time, "23:59:59")));
    assert_eq!(time(TimeUnit::Second, 86_400), None);
    assert_eq!(time(TimeUnit::Second, -1), None);
    assert_eq!(time(TimeUnit::Second, i64::MAX), None);
    assert_eq!(time(TimeUnit::Millisecond, 1_050), Some(text(TextKind::Time, "00:00:01.050")));
    assert_eq!(time(TimeUnit::Microsecond, 7), Some(text(TextKind::Time, "00:00:00.000007")));
    assert_eq!(time(TimeUnit::Nanosecond, 7), Some(text(TextKind::Time, "00:00:00.000000007")));
    assert_eq!(unit_to_nanos(TimeUnit::Second, i64::MIN), Some(-9_223_372_036_854_775_808_000_000_000));
    assert_eq!(unit_to_nanos(TimeUnit::Nanosecond, 3), Some(3));
}

#[test]
fn moments_are_read_on_both_sides_of_the_epoch() {
    let moment = |unit: TimeUnit, amount: i64| {
        cell_of(TypeKind::Timestamp, StoredScalar::Timestamp(unit, amount))
    };
    assert_eq!(
        moment(TimeUnit::Nanosecond, -1),
        Some(text(TextKind::Timestamp, "1969-12-31 23:59:59.999999999"))
    );
    assert_eq!(
        moment(TimeUnit::Millisecond, 86_400_500),
        Some(text(TextKind::Timestamp, "1970-01-02 00:00:00.500"))
    );
    assert_eq!(
        moment(TimeUnit::Second, 95_026_237 * 86_400 - 1),
        Some(text(TextKind::Timestamp, "+262142-12-31 23:59:59"))
    );
    assert_eq!(moment(TimeUnit::Second, 95_026_237 * 86_400), None);
    assert_eq!(
        moment(TimeUnit::Second, -96_465_292 * 86_400),
        Some(text(TextKind::Timestamp, "-262143-01-01 00:00:00"))
    );
    assert_eq!(moment(TimeUnit::Second, -96_465_292 * 86_400 - 1), None);
    assert_eq!(moment(TimeUnit::Second, i64::MIN), None);
}

#[test]
fn columns_without_a_lossless_value_are_read_through_text() {
    let expression = |kind: TypeKind, is_array: bool| {
        read_expression(&ColumnSchema::new("Value", ColumnType::new(kind, is_array, "t")))
    };
    assert_eq!(expression(TypeKind::Int4, false), "cdc_target.\"value\"");
    assert_eq!(expression(TypeKind::Bytea, true), "cdc_target.\"value\"");
    for kind in [
        TypeKind::Numeric,
        TypeKind::Uuid,
        TypeKind::Json,
        TypeKind::Jsonb,
        TypeKind::TimeTz,
        TypeKind::Other,
    ] {
        assert_eq!(expression(kind, false), "CAST(cdc_target.\"value\" AS VARCHAR)");
        assert_eq!(expression(kind, true), "CAST(cdc_target.\"value\" AS VARCHAR[])");
    }
}

#[test]
fn recovery_statements_name_their_columns_and_keys() {
    let schema = key_schema(ColumnType::new(TypeKind::Uuid, false, "uuid"));
    let request = key_request(&schema, &[3, 1]);
    let mut read = RecoveryRead::new(&schema, &request).unwrap();
    let statement = read
        .next_statement(&DuckLakeTableName::new("public", "rows"), &schema, &request)
        .unwrap();
    assert_eq!(
        statement.sql,
        "SELECT cdc_target.\"id\", CAST(cdc_target.\"value\" AS VARCHAR) \
         FROM \"lake\".\"public\".\"rows\" AS cdc_target \
         JOIN (VALUES (3),(1)) AS cdc_keys(\"id\") \
         ON cdc_target.\"id\" IS NOT DISTINCT FROM cdc_keys.\"id\" \
         AND cdc_target.\"id\" >= 1 AND cdc_target.\"id\" <= 3;"
    );
    assert!(!statement.sensitive);
}

#[test]
fn recovery_of_an_unknown_column_is_refused() {
    let schema = key_schema(ColumnType::new(TypeKind::Other, false, "text"));
    let keys = vec![PartialUpdateRecoveryKey {
        predicate: "\"id\" = 1".to_owned(),
        components: vec![],
        mutation_index: 0,
    }];
    let request = PartialUpdateRecoveryRequest::new(keys, vec![1, 2], 10);
    let error = match RecoveryRead::new(&schema, &request) {
        Ok(_) => panic!("the column is not replicated"),
        Err(error) => error,
    };
    assert_eq!(error.kind(), ErrorKind::InvalidState);
    assert_eq!(error.description(), "DuckLake partial update recovery column is out of range");
    assert_eq!(
        error.detail.as_deref(),
        Some("Table 'public.rows' has 2 replicated columns, requested index 2")
    );
}

#[test]
fn recovery_reads_more_keys_while_its_rows_stay_small() {
    let schema = key_schema(ColumnType::new(TypeKind::Other, false, "text"));
    let ids: Vec<i64> = (0..3000).collect();
    let request = key_request(&schema, &ids);
    let mut read = RecoveryRead::new(&schema, &request).unwrap();
    let table_name = DuckLakeTableName::new("public", "rows");
    let mut statements = 0;
    while read.next_statement(&table_name, &schema, &request).is_some() {
        statements += 1;
        read.statement_done(&schema, &request);
    }
    let outcome = read.into_outcome(&schema, &request);
    assert_eq!(outcome.covered_keys, 3000);
    assert!(statements >= 3);
    assert_eq!(outcome.recovered.rows_for("\"id\" = 2999").map(Vec::len), Some(0));
}

#[test]
fn recovery_without_keys_runs_nothing() {
    let schema = key_schema(ColumnType::new(TypeKind::Other, false, "text"));
    let request = PartialUpdateRecoveryRequest::new(vec![], vec![7], 10);
    let mut read = RecoveryRead::new(&schema, &request).unwrap();
    let table_name = DuckLakeTableName::new("public", "rows");
    assert!(read.next_statement(&table_name, &schema, &request).is_none());
    assert_eq!(read.into_outcome(&schema, &request).covered_keys, 0);
}

#[test]
fn recovery_row_that_cannot_be_read_fails_the_read() {
    let schema = key_schema(ColumnType::new(TypeKind::Bool, false, "bool"));
    let request = key_request(&schema, &[1]);
    let mut read = RecoveryRead::new(&schema, &request).unwrap();
    read.next_statement(&DuckLakeTableName::new("public", "rows"), &schema, &request).unwrap();
    let error = read
        .row(
            &schema,
            &request,
            &vec![
                StoredValue::Scalar(StoredScalar::BigInt(1)),
                StoredValue::Scalar(StoredScalar::Int(1)),
            ],
        )
        .unwrap_err();
    assert_eq!(error.kind(), ErrorKind::ConversionError);
    assert_eq!(
        recovery_failure_description(RecoveryStage::Statement),
        "DuckLake partial update recovery failed"
    );
    assert_eq!(
        recovery_failure_description(RecoveryStage::Row),
        "DuckLake partial update recovery row fetch failed"
    );
    assert_eq!(
        recovery_failure_description(RecoveryStage::Value),
        "DuckLake partial update recovery value fetch failed"
    );
}

/// Attempts a read until it succeeds or its failure is final.
fn retry_recovery_read(
    mut attempt: impl FnMut() -> Result<PartialUpdateRecoveryOutcome, EtlError>,
) -> Result<PartialUpdateRecoveryOutcome, EtlError> {
    let mut retry = RetryLoop::new(commit_retry_policy());
    loop {
        match attempt() {
            Ok(outcome) => return Ok(outcome),
            Err(error) => {
                if retry.failed(&error) == RetryStep::GiveUp {
                    return Err(error);
                }
            }
        }
    }
}

#[test]
fn recovery_read_retries_a_transient_failure() {
    let attempts = std::cell::Cell::new(0usize);
    let outcome = retry_recovery_read(|| {
        let attempt = attempts.get() + 1;
        attempts.set(attempt);
        if attempt == 1 {
            return Err(EtlError::new(
                ErrorKind::DestinationQueryFailed,
                "DuckLake partial update recovery failed",
            ));
        }

        Ok(PartialUpdateRecoveryOutcome {
            recovered: RecoveredPartialRows::empty(),
            covered_keys: 3,
        })
    })
    .ok()
    .expect("the second attempt succeeds");

    assert_eq!(attempts.get(), 2);
    assert_eq!(outcome.covered_keys, 3);
}

#[test]
fn recovery_read_stops_retrying_on_shutdown() {
    let attempts = std::cell::Cell::new(0usize);
    let error = retry_recovery_read(|| {
        attempts.set(attempts.get() + 1);
        Err(EtlError::new(
            ErrorKind::DestinationConnectionFailed,
            "DuckLake shutdown requested",
        ))
    })
    .err()
    .expect("a shutdown is final");

    assert_eq!(attempts.get(), 1);
    assert_eq!(error.kind(), ErrorKind::DestinationConnectionFailed);
}

fn failure() -> EtlError {
    EtlError::new(ErrorKind::DestinationQueryFailed, "it failed")
}

#[test]
fn retries_back_off_up_to_their_bound() {
    let mut retry = RetryLoop::new(commit_retry_policy());
    assert!(retry.is_first_attempt());
    let mut delays = Vec::new();
    while let RetryStep::Retry { retry_index, delay_ms } = retry.failed(&failure()) {
        delays.push(delay_ms);
        assert_eq!(retry_index as usize, delays.len());
        assert!(!retry.is_first_attempt());
    }
    assert_eq!(delays, vec![50, 100, 200, 400, 800, 1600, 3200, 5000, 5000, 5000]);
    assert_eq!(retry.failed(&failure()), RetryStep::GiveUp);
}

#[test]
fn known_progress_serves_the_first_attempt_only() {
    let known = Some(TableStreamingProgress {
        last_sequence_key: EventSequenceKey::new(PgLsn(3), 4),
    });
    let mut retry = RetryLoop::new(commit_retry_policy());
    assert_eq!(progress_for_attempt(&retry, known), known);
    retry.failed(&failure());
    assert_eq!(progress_for_attempt(&retry, known), None);
}

#[test]
fn exhausted_batches_name_their_table_and_keep_the_cause() {
    let table_name = DuckLakeTableName::new("public", "users");
    let error = exhausted_batch_error(
        &table_name,
        "batch-7",
        DuckLakeTableBatchKind::Mutation,
        failure(),
    );
    assert_eq!(error.kind(), ErrorKind::DestinationAtomicBatchRetryable);
    assert_eq!(error.description(), "DuckLake atomic table batch failed after retries");
    assert_eq!(
        error.detail.as_deref(),
        Some("table=public.users, batch_id=batch-7, batch_kind=mutation")
    );
    assert_eq!(error.cause, Some(Box::new(failure())));

    let shutdown =
        EtlError::new(ErrorKind::DestinationConnectionFailed, "DuckLake shutdown requested");
    assert!(is_ducklake_shutdown_requested_error(&shutdown));
    let kept = exhausted_batch_error(
        &table_name,
        "batch-7",
        DuckLakeTableBatchKind::Mutation,
        shutdown,
    );
    assert_eq!(kept.description(), "DuckLake shutdown requested");
    // The same words with another kind are no shutdown.
    assert!(!is_ducklake_shutdown_requested_error(&EtlError::new(
        ErrorKind::DestinationQueryFailed,
        "DuckLake shutdown requested",
    )));
}
