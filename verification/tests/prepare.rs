//! Preparation of atomic batches.

use ducklake_batches::backlog::{
    retain_mutations_after_sequence_key, retain_truncates_after_sequence_key,
    split_tracked_mutations, DuckLakeStreamingBatchConfig, TrackedTableMutation,
    TrackedTruncateEvent,
};
use ducklake_batches::batch_kind::DuckLakeTableBatchKind;
use ducklake_batches::batches::{
    apply_sub_batch_rows, batch_log_kind, build_batch_identity, build_copy_complete_batch_identity,
    build_mutation_batch_identity, build_truncate_batch_identity, prepare_copy_complete_table_batch,
    prepare_copy_table_batch, prepare_truncate_table_batch, prepared_mutation_count,
    replicated_column_names, PreparedDuckLakeTableBatch, PreparedDuckLakeTableBatchAction,
};
use ducklake_batches::data::{
    Cell, OldTableRow, PartialTableRow, Scalar, TableRow, TextKind, UpdatedTableRow,
};
use ducklake_batches::error::{ErrorKind, EtlError};
use ducklake_batches::fingerprint::BatchIdHasher;
use ducklake_batches::identity::{
    delete_key_components, delete_predicate_from_row, identity_predicate, DeletePredicateRowRef,
};
use ducklake_batches::literal::{
    cell_to_sql_literal_ref, prepare_copy_rows, prepare_rows, prepared_rows_count,
    prepared_rows_kind, table_row_to_sql_literal_ref, PreparedRows,
};
use ducklake_batches::mutation::{PreparedTableMutation, TableMutation};
use ducklake_batches::mutation_run::{ChunkStep, MutationRun};
use ducklake_batches::normalize::prepare_table_mutations;
use ducklake_batches::ordered::prepare_ordered_table_mutations;
use ducklake_batches::partial_row::{complete_partial_row, update_assignments_from_partial_row};
use ducklake_batches::partial_update::{
    PartialUpdateRecoveryKey, PartialUpdateRecoveryRequest, RecoveredPartialRows,
};
use ducklake_batches::recovery_plan::{
    covered_mutation_count, plan_partial_update_recovery, recovery_byte_budget,
};
use ducklake_batches::schema::{
    qualified_lake_table_name, ColumnSchema, ColumnType, DuckLakeTableName, ReplicatedTableSchema,
    TypeKind,
};
use ducklake_batches::sequence::{
    format_optional_lsn, format_optional_sequence_key, format_sequence_key,
    optional_lsn_to_sql_literal, EventSequenceKey, PgLsn,
};
use ducklake_batches::statements::LEGACY_REPLAY_EPOCH;

fn column(name: &str, kind: TypeKind) -> ColumnSchema {
    ColumnSchema::new(name, ColumnType::new(kind, false, "type"))
}

fn users(columns: Vec<ColumnSchema>) -> ReplicatedTableSchema {
    ReplicatedTableSchema::new("public.users", columns)
}

fn make_replicated_schema() -> ReplicatedTableSchema {
    users(vec![
        column("id", TypeKind::Int4).with_identity(),
        column("name", TypeKind::Other),
    ])
}

fn ducklake_table_name() -> DuckLakeTableName {
    DuckLakeTableName::new("public", "users")
}

fn integer(value: i32) -> Cell {
    Cell::Value(Scalar::I32(value))
}

fn text(value: &str) -> Cell {
    Cell::Value(Scalar::Text(TextKind::Plain, value.to_owned()))
}

fn float8(value: &str) -> Cell {
    Cell::Value(Scalar::Text(TextKind::Float8, value.to_owned()))
}

fn uuid_cell(value: &str) -> Cell {
    Cell::Value(Scalar::Uuid(uuid::Uuid::parse_str(value).unwrap().as_u128()))
}

fn row(values: Vec<Cell>) -> TableRow {
    TableRow::new(values)
}

fn key_at(lsn: u64, ordinal: u64) -> EventSequenceKey {
    EventSequenceKey::new(PgLsn(lsn), ordinal)
}

fn at(lsn: u64, ordinal: u64, mutation: TableMutation) -> TrackedTableMutation {
    TrackedTableMutation::new(key_at(lsn, ordinal), mutation)
}

/// Prepares every batch of a backlog as if storage held none of the identities
/// it asks for.
fn prepare_mutation_table_batches(
    config: DuckLakeStreamingBatchConfig,
    schema: &ReplicatedTableSchema,
    tracked_mutations: Vec<TrackedTableMutation>,
) -> Result<Vec<PreparedDuckLakeTableBatch>, EtlError> {
    let mut run = MutationRun::new(config, tracked_mutations);
    let mut prepared_batches = Vec::new();
    loop {
        let recovered = match run.next_chunk(schema)? {
            ChunkStep::Done => return Ok(prepared_batches),
            ChunkStep::Prepare => RecoveredPartialRows::empty(),
            ChunkStep::Recover(request) => {
                run.recovered(&request, request.keys().len());
                RecoveredPartialRows::for_request(&request)
            }
        };
        let table_name = ducklake_table_name();
        prepared_batches.extend(run.prepare(schema, &table_name, LEGACY_REPLAY_EPOCH, recovered)?);
    }
}

fn operations(batch: &PreparedDuckLakeTableBatch) -> &Vec<PreparedTableMutation> {
    match &batch.action {
        PreparedDuckLakeTableBatchAction::Mutation(prepared) => prepared,
        PreparedDuckLakeTableBatchAction::Truncate => panic!("expected mutation batch"),
    }
}

#[test]
fn sequence_key_format_preserves_fixed_width_hex_encoding() {
    let sequence_key = EventSequenceKey::new(PgLsn(1), 2);

    assert_eq!(format_sequence_key(sequence_key), "0000000000000001/0000000000000002");
    assert_eq!(
        format_optional_sequence_key(Some(sequence_key)),
        "0000000000000001/0000000000000002"
    );
    assert_eq!(format_optional_sequence_key(None), "none");
}

#[test]
fn positions_render_as_text_and_as_literals() {
    assert_eq!(format_optional_lsn(None), "none");
    assert_eq!(format_optional_lsn(Some(PgLsn(0x0000_0016_b374_d848))), "16/B374D848");
    assert_eq!(optional_lsn_to_sql_literal(None), "NULL");
    assert_eq!(optional_lsn_to_sql_literal(Some(PgLsn(u64::MAX))), "18446744073709551615");
}

#[test]
fn replicated_column_names_use_ducklake_mapping() {
    let schema = users(vec![
        column("ID", TypeKind::Int4).with_identity(),
        column("Display_Name", TypeKind::Other),
    ]);

    assert_eq!(replicated_column_names(&schema), ["id", "display_name"]);
}

#[test]
fn delete_predicate_from_row_uses_only_replica_identity_columns() {
    let schema = users(vec![
        column("tenant_id", TypeKind::Int4).with_identity(),
        column("id", TypeKind::Int4).with_identity(),
        column("name", TypeKind::Other),
    ]);
    let row = row(vec![integer(7), integer(42), text("alice")]);

    assert_eq!(
        delete_predicate_from_row(&schema, DeletePredicateRowRef::Full(&row)).unwrap(),
        "\"tenant_id\" = 7 AND \"id\" = 42"
    );
}

#[test]
fn delete_predicate_from_row_supports_alternative_identity_without_primary_key() {
    let schema = users(vec![
        column("id", TypeKind::Int4),
        column("email", TypeKind::Other).with_identity(),
        column("name", TypeKind::Other),
    ]);
    let row = row(vec![integer(7), text("alice@example.com"), text("alice")]);

    assert_eq!(
        delete_predicate_from_row(&schema, DeletePredicateRowRef::Full(&row)).unwrap(),
        "\"email\" = 'alice@example.com'"
    );
}

#[test]
fn delete_predicate_from_row_uses_full_replica_identity_columns() {
    let schema = users(vec![
        column("id", TypeKind::Int4).with_identity(),
        column("email", TypeKind::Other).with_identity(),
        column("name", TypeKind::Other).with_identity(),
    ]);
    let row = row(vec![integer(7), text("alice@example.com"), text("alice")]);

    assert_eq!(
        delete_predicate_from_row(&schema, DeletePredicateRowRef::Full(&row)).unwrap(),
        "\"id\" = 7 AND \"email\" = 'alice@example.com' AND \"name\" = 'alice'"
    );
}

#[test]
fn delete_predicate_from_row_rejects_missing_replica_identity() {
    let schema = users(vec![column("id", TypeKind::Int4), column("name", TypeKind::Other)]);
    let row = row(vec![integer(1), text("alice")]);

    let error = delete_predicate_from_row(&schema, DeletePredicateRowRef::Full(&row)).unwrap_err();

    assert_eq!(error.kind(), ErrorKind::SourceReplicaIdentityError);
    assert_eq!(error.description(), "DuckLake delete requires a replica identity");
}

#[test]
fn row_images_of_the_wrong_width_are_rejected() {
    let schema = make_replicated_schema();
    let narrow = row(vec![integer(1)]);
    let error =
        delete_predicate_from_row(&schema, DeletePredicateRowRef::Full(&narrow)).unwrap_err();
    assert_eq!(error.description(), "DuckLake row shape does not match schema");
    assert_eq!(
        error.detail.as_deref(),
        Some("Expected 2 values for table 'public.users', got 1")
    );

    let wide = row(vec![integer(1), integer(2)]);
    let error = delete_predicate_from_row(&schema, DeletePredicateRowRef::Key(&wide)).unwrap_err();
    assert_eq!(error.description(), "DuckLake key image does not match replica identity");
    assert_eq!(
        error.detail.as_deref(),
        Some("Expected 1 key values for table 'public.users', got 2")
    );
}

#[test]
fn null_identity_values_match_null() {
    let schema = make_replicated_schema();
    let key = row(vec![Cell::Null]);
    assert_eq!(
        delete_predicate_from_row(&schema, DeletePredicateRowRef::Key(&key)).unwrap(),
        "\"id\" IS NULL"
    );
    let components =
        delete_key_components(&schema, DeletePredicateRowRef::Key(&key)).unwrap();
    assert_eq!(components[0].literal(), "NULL");
    let cell = integer(3);
    assert_eq!(
        identity_predicate(&vec![(&schema.column_schemas()[0], &cell)]),
        "\"id\" = 3"
    );
}

#[test]
fn independent_row_rewrites_use_one_delete_and_one_insert() {
    let schema = make_replicated_schema();
    for full_update in [false, true] {
        let mutations = (0..16)
            .map(|id| {
                let new = row(vec![integer(id), text("new")]);
                if full_update {
                    TableMutation::Update {
                        delete_row: OldTableRow::Key(row(vec![integer(id)])),
                        new_row: UpdatedTableRow::Full(new),
                    }
                } else {
                    TableMutation::Replace(new)
                }
            })
            .collect();
        let prepared =
            prepare_table_mutations(&schema, mutations, RecoveredPartialRows::empty()).unwrap();
        assert_eq!(prepared.len(), 2);
        let PreparedTableMutation::Delete { predicates, .. } = &prepared[0] else {
            panic!("expected delete");
        };
        assert_eq!(predicates.len(), 16);
        let PreparedTableMutation::Upsert(rows) = &prepared[1] else {
            panic!("expected insert");
        };
        assert_eq!(prepared_rows_count(rows), 16);
    }
}

#[test]
fn interleaved_inserts_and_rewrites_share_one_delete_scan() {
    let schema = make_replicated_schema();
    let mut mutations = Vec::new();
    for id in 0..8 {
        let named = |value: &str| row(vec![integer(id), text(value)]);
        mutations.push(TableMutation::Insert(named("started")));
        mutations.push(TableMutation::Replace(named("completed")));
    }
    let prepared =
        prepare_table_mutations(&schema, mutations, RecoveredPartialRows::empty()).unwrap();
    let deletes = prepared
        .iter()
        .filter(|operation| matches!(operation, PreparedTableMutation::Delete { .. }))
        .count();
    assert_eq!(deletes, 1);
}

#[test]
fn full_row_event_classes_share_one_delete_scan() {
    let schema = make_replicated_schema();
    let named = |id| row(vec![integer(id), text("value")]);
    let mutations = vec![
        TableMutation::Insert(named(1)),
        TableMutation::Replace(named(1)),
        TableMutation::Delete(OldTableRow::Key(row(vec![integer(1)]))),
        TableMutation::Update {
            delete_row: OldTableRow::Key(row(vec![integer(2)])),
            new_row: UpdatedTableRow::Full(named(3)),
        },
        TableMutation::Replace(named(3)),
        TableMutation::Insert(named(4)),
    ];
    let prepared =
        prepare_table_mutations(&schema, mutations, RecoveredPartialRows::empty()).unwrap();
    assert_eq!(prepared.len(), 2);
    let PreparedTableMutation::Delete { predicates, .. } = &prepared[0] else {
        panic!("expected delete");
    };
    assert_eq!(predicates.len(), 3);
}

#[test]
fn uuid_rewrites_batch_and_repeated_identity_keeps_the_last_row() {
    let schema = users(vec![
        column("id", TypeKind::Uuid).with_identity(),
        column("name", TypeKind::Other),
    ]);
    let ids = ["00000000-0000-0000-0000-000000000001", "00000000-0000-0000-0000-000000000002"];
    let mutations =
        [0, 1, 0].map(|i| TableMutation::Replace(row(vec![uuid_cell(ids[i]), text("new")])));
    let prepared =
        prepare_table_mutations(&schema, mutations.into(), RecoveredPartialRows::empty()).unwrap();
    assert_eq!(prepared.len(), 2);
    let PreparedTableMutation::Delete { predicates, .. } = &prepared[0] else {
        panic!("expected delete")
    };
    assert_eq!(predicates.len(), 2);
    let PreparedTableMutation::Upsert(rows) = &prepared[1] else { panic!("expected insert") };
    assert_eq!(prepared_rows_count(rows), 2);
}

#[test]
fn noncanonical_identity_rewrites_preserve_operation_order() {
    let schema = users(vec![
        column("id", TypeKind::Float8).with_identity(),
        column("name", TypeKind::Other),
    ]);
    let mutations =
        ["0", "-0"].map(|id| TableMutation::Replace(row(vec![float8(id), text("new")])));
    assert_eq!(
        prepare_table_mutations(&schema, mutations.into(), RecoveredPartialRows::empty())
            .unwrap()
            .len(),
        4
    );
}

#[test]
fn prepare_table_mutations_replace_emits_delete_then_upsert() {
    let schema = make_replicated_schema();
    let new = row(vec![integer(1), text("alice")]);

    let prepared = prepare_table_mutations(
        &schema,
        vec![TableMutation::Replace(new)],
        RecoveredPartialRows::empty(),
    )
    .unwrap();

    assert_eq!(prepared.len(), 2);
    match &prepared[0] {
        PreparedTableMutation::Delete { predicates, origin, .. } => {
            assert_eq!(predicates, &vec!["\"id\" = 1".to_owned()]);
            assert_eq!(origin.as_str(), "replace");
        }
        PreparedTableMutation::Upsert(_) | PreparedTableMutation::Update { .. } => {
            panic!("expected delete first")
        }
    }
    match &prepared[1] {
        PreparedTableMutation::Upsert(PreparedRows::Appender(rows)) => {
            assert_eq!(rows.len(), 1);
        }
        PreparedTableMutation::Upsert(PreparedRows::SqlLiterals(_)) => {
            panic!("expected appender payload")
        }
        PreparedTableMutation::Upsert(PreparedRows::ArrowRecordBatch(_)) => {
            panic!("expected appender payload")
        }
        PreparedTableMutation::Delete { .. } | PreparedTableMutation::Update { .. } => {
            panic!("expected upsert second")
        }
    }
}

fn expect_update(prepared: &[PreparedTableMutation]) -> (&Vec<String>, &String) {
    assert_eq!(prepared.len(), 1);
    match &prepared[0] {
        PreparedTableMutation::Update { assignments, predicate } => (assignments, predicate),
        PreparedTableMutation::Upsert(_) | PreparedTableMutation::Delete { .. } => {
            panic!("expected update")
        }
    }
}

#[test]
fn prepare_table_mutations_update_emits_update_statement() {
    let schema = make_replicated_schema();
    let prepared = prepare_table_mutations(
        &schema,
        vec![TableMutation::Update {
            delete_row: OldTableRow::Key(row(vec![integer(1)])),
            new_row: UpdatedTableRow::Partial(PartialTableRow::new(
                2,
                row(vec![integer(1), text("after")]),
                vec![],
            )),
        }],
        RecoveredPartialRows::empty(),
    )
    .unwrap();

    let (assignments, predicate) = expect_update(&prepared);
    assert_eq!(assignments, &vec!["\"id\" = 1".to_owned(), "\"name\" = 'after'".to_owned()]);
    assert_eq!(predicate, "\"id\" = 1");
}

#[test]
fn prepare_table_mutations_update_uses_alternative_identity_key_for_changed_key_update() {
    let schema = users(vec![
        column("id", TypeKind::Int4),
        column("email", TypeKind::Other).with_identity(),
        column("name", TypeKind::Other),
        column("payload", TypeKind::Other),
    ]);

    let prepared = prepare_table_mutations(
        &schema,
        vec![TableMutation::Update {
            delete_row: OldTableRow::Key(row(vec![text("alice@example.com")])),
            new_row: UpdatedTableRow::Partial(PartialTableRow::new(
                4,
                row(vec![integer(1), text("alice@new.example.com"), text("ripe")]),
                vec![3],
            )),
        }],
        RecoveredPartialRows::empty(),
    )
    .unwrap();

    let (assignments, predicate) = expect_update(&prepared);
    assert_eq!(
        assignments,
        &vec![
            "\"id\" = 1".to_owned(),
            "\"email\" = 'alice@new.example.com'".to_owned(),
            "\"name\" = 'ripe'".to_owned(),
        ]
    );
    assert_eq!(predicate, "\"email\" = 'alice@example.com'");
}

#[test]
fn prepare_table_mutations_update_uses_full_replica_identity_predicate() {
    let schema = users(vec![
        column("id", TypeKind::Int4).with_identity(),
        column("email", TypeKind::Other).with_identity(),
        column("name", TypeKind::Other).with_identity(),
        column("payload", TypeKind::Other).with_identity(),
    ]);

    let prepared = prepare_table_mutations(
        &schema,
        vec![TableMutation::Update {
            delete_row: OldTableRow::Full(row(vec![
                integer(1),
                text("alice@example.com"),
                text("seed"),
                text("toast"),
            ])),
            new_row: UpdatedTableRow::Partial(PartialTableRow::new(
                4,
                row(vec![integer(1), text("alice@example.com"), text("grown")]),
                vec![3],
            )),
        }],
        RecoveredPartialRows::empty(),
    )
    .unwrap();

    let (assignments, predicate) = expect_update(&prepared);
    assert_eq!(
        assignments,
        &vec![
            "\"id\" = 1".to_owned(),
            "\"email\" = 'alice@example.com'".to_owned(),
            "\"name\" = 'grown'".to_owned(),
        ]
    );
    assert_eq!(
        predicate,
        "\"id\" = 1 AND \"email\" = 'alice@example.com' AND \"name\" = 'seed' AND \
         \"payload\" = 'toast'"
    );
}

#[test]
fn prepare_mutation_table_batches_insert_only_uses_single_upsert_operation() {
    let schema = make_replicated_schema();
    let batches = prepare_mutation_table_batches(
        DuckLakeStreamingBatchConfig::default(),
        &schema,
        vec![
            at(20, 0, TableMutation::Insert(row(vec![integer(1), text("alice")]))),
            at(20, 1, TableMutation::Insert(row(vec![integer(2), text("bob")]))),
        ],
    )
    .unwrap();

    assert_eq!(batches.len(), 1);
    assert_eq!(batches[0].batch_kind, DuckLakeTableBatchKind::Mutation);
    let prepared = operations(&batches[0]);
    assert_eq!(prepared.len(), 1);
    match &prepared[0] {
        PreparedTableMutation::Upsert(PreparedRows::Appender(rows)) => {
            assert_eq!(rows.len(), 2);
        }
        PreparedTableMutation::Upsert(PreparedRows::SqlLiterals(_)) => {
            panic!("expected appender payload")
        }
        PreparedTableMutation::Upsert(PreparedRows::ArrowRecordBatch(_)) => {
            panic!("expected appender payload")
        }
        PreparedTableMutation::Delete { .. } | PreparedTableMutation::Update { .. } => {
            panic!("expected upsert")
        }
    }
    assert_eq!(batch_log_kind(&batches[0]), "insert");
    assert_eq!(apply_sub_batch_rows(&batches[0]), Some(2));
    assert_eq!(prepared_mutation_count(&batches[0]), 1);
}

#[test]
fn prepare_mutation_table_batches_coalesce_insert_delete_insert() {
    let schema = make_replicated_schema();
    let batches = prepare_mutation_table_batches(
        DuckLakeStreamingBatchConfig::default(),
        &schema,
        vec![
            at(110, 0, TableMutation::Insert(row(vec![integer(0), text("seed")]))),
            at(
                110,
                1,
                TableMutation::Delete(OldTableRow::Full(row(vec![integer(0), text("seed")]))),
            ),
            at(110, 2, TableMutation::Insert(row(vec![integer(999), text("tail")]))),
        ],
    )
    .unwrap();

    assert_eq!(batches.len(), 1);
    let prepared = operations(&batches[0]);
    assert_eq!(prepared.len(), 2);
    assert!(matches!(prepared[0], PreparedTableMutation::Delete { .. }));
    assert!(matches!(prepared[1], PreparedTableMutation::Upsert(PreparedRows::Appender(_))));
}

#[test]
fn prepare_mutation_table_batches_group_contiguous_deletes() {
    let schema = make_replicated_schema();
    let batches = prepare_mutation_table_batches(
        DuckLakeStreamingBatchConfig::default(),
        &schema,
        vec![
            at(
                110,
                0,
                TableMutation::Delete(OldTableRow::Full(row(vec![integer(1), text("alice")]))),
            ),
            at(
                120,
                0,
                TableMutation::Delete(OldTableRow::Full(row(vec![integer(2), text("bob")]))),
            ),
        ],
    )
    .unwrap();

    assert_eq!(batches.len(), 1);
    let prepared = operations(&batches[0]);
    assert_eq!(prepared.len(), 1);
    match &prepared[0] {
        PreparedTableMutation::Delete { predicates, origin, .. } => {
            assert_eq!(origin.as_str(), "delete");
            assert_eq!(predicates, &vec!["\"id\" = 1".to_owned(), "\"id\" = 2".to_owned()]);
        }
        PreparedTableMutation::Upsert(_) | PreparedTableMutation::Update { .. } => {
            panic!("expected delete batch")
        }
    }
    assert_eq!(batch_log_kind(&batches[0]), "delete");
    assert_eq!(apply_sub_batch_rows(&batches[0]), None);
}

#[test]
fn prepare_mutation_table_batches_group_contiguous_updates() {
    let schema = make_replicated_schema();
    let update = |id: i32, before: &str, after: &str| TableMutation::Update {
        delete_row: OldTableRow::Full(row(vec![integer(id), text(before)])),
        new_row: UpdatedTableRow::Full(row(vec![integer(id), text(after)])),
    };
    let batches = prepare_mutation_table_batches(
        DuckLakeStreamingBatchConfig::default(),
        &schema,
        vec![
            at(110, 0, update(1, "before-a", "after-a")),
            at(120, 0, update(2, "before-b", "after-b")),
        ],
    )
    .unwrap();

    assert_eq!(batches.len(), 1);
    let prepared = operations(&batches[0]);
    assert_eq!(prepared.len(), 2);
    assert!(matches!(prepared[0], PreparedTableMutation::Delete { .. }));
    assert!(matches!(prepared[1], PreparedTableMutation::Upsert(PreparedRows::Appender(_))));
    assert_eq!(batch_log_kind(&batches[0]), "update");
}

#[test]
fn prepare_mutation_table_batches_split_non_inserts_at_cap() {
    let schema = make_replicated_schema();
    let batch_size = DuckLakeStreamingBatchConfig::default().max_rows;
    let backlog = (0..=batch_size)
        .map(|idx| {
            at(
                200 + idx as u64,
                0,
                TableMutation::Delete(OldTableRow::Full(row(vec![
                    integer(idx as i32),
                    text(&format!("name-{idx}")),
                ]))),
            )
        })
        .collect();
    let batches = prepare_mutation_table_batches(
        DuckLakeStreamingBatchConfig::default(),
        &schema,
        backlog,
    )
    .unwrap();

    assert_eq!(batches.len(), 2);
    for (batch, expected) in batches.iter().zip([batch_size, 1]) {
        match &operations(batch)[0] {
            PreparedTableMutation::Delete { predicates, .. } => {
                assert_eq!(predicates.len(), expected);
            }
            PreparedTableMutation::Upsert(_) | PreparedTableMutation::Update { .. } => {
                panic!("expected delete batch")
            }
        }
    }
}

#[test]
fn prepare_mutation_table_batches_coalesce_update_with_trailing_insert() {
    let schema = make_replicated_schema();
    let batches = prepare_mutation_table_batches(
        DuckLakeStreamingBatchConfig::default(),
        &schema,
        vec![
            at(110, 0, TableMutation::Insert(row(vec![integer(0), text("seed")]))),
            at(
                120,
                1,
                TableMutation::Update {
                    delete_row: OldTableRow::Full(row(vec![integer(0), text("seed")])),
                    new_row: UpdatedTableRow::Full(row(vec![integer(0), text("grown")])),
                },
            ),
            at(130, 2, TableMutation::Insert(row(vec![integer(999), text("tail")]))),
        ],
    )
    .unwrap();

    assert_eq!(batches.len(), 1);
    let prepared = operations(&batches[0]);
    assert_eq!(prepared.len(), 2);
    assert!(matches!(prepared[0], PreparedTableMutation::Delete { .. }));
    assert!(matches!(prepared[1], PreparedTableMutation::Upsert(PreparedRows::Appender(_))));
    let PreparedTableMutation::Upsert(rows) = &prepared[1] else { panic!("expected insert") };
    assert_eq!(prepared_rows_count(rows), 2);
}

#[test]
fn retain_mutations_after_sequence_key_drops_applied_prefix() {
    let backlog = || {
        vec![
            at(110, 0, TableMutation::Insert(row(vec![integer(1), text("one")]))),
            at(120, 0, TableMutation::Insert(row(vec![integer(2), text("two")]))),
            at(130, 0, TableMutation::Insert(row(vec![integer(3), text("three")]))),
        ]
    };
    let retained = retain_mutations_after_sequence_key(backlog(), Some(key_at(120, 0)));

    assert_eq!(retained.len(), 1);
    assert_eq!(retained[0].sequence_key(), key_at(130, 0));
    assert_eq!(retain_mutations_after_sequence_key(backlog(), None).len(), 3);
}

#[test]
fn retain_truncates_after_sequence_key_drops_applied_prefix() {
    let retained = retain_truncates_after_sequence_key(
        vec![
            TrackedTruncateEvent::new(key_at(200, 0), 0),
            TrackedTruncateEvent::new(key_at(200, 1), 0),
            TrackedTruncateEvent::new(key_at(210, 0), 0),
        ],
        Some(key_at(200, 0)),
    );

    assert_eq!(retained.len(), 2);
    assert_eq!(retained[0].sequence_key(), key_at(200, 1));
    assert_eq!(retained[1].sequence_key(), key_at(210, 0));
}

#[test]
fn prepare_copy_table_batch_uses_propagated_id() {
    let schema = make_replicated_schema();
    let expected_batch_id = "00000000-0000-0000-0000-000000000001:2";
    let prepared = prepare_copy_table_batch(
        &schema,
        ducklake_table_name(),
        LEGACY_REPLAY_EPOCH.to_owned(),
        expected_batch_id.to_owned(),
        vec![row(vec![integer(1), text("identical")])],
    );

    assert_eq!(prepared.batch.batch_id, expected_batch_id);
    assert_eq!(prepared.batch.batch_kind, DuckLakeTableBatchKind::Copy);
    assert!(prepared.estimated_bytes() > 0);
    assert_eq!(prepared.into_atomic_batch().insert_column_names, ["id", "name"]);
}

#[test]
fn build_mutation_batch_identity_is_deterministic() {
    let schema = make_replicated_schema();
    let backlog = vec![
        at(200, 0, TableMutation::Insert(row(vec![integer(1), text("alice")]))),
        at(200, 1, TableMutation::Delete(OldTableRow::Full(row(vec![integer(1), text("alice")])))),
    ];

    let table_name = ducklake_table_name();
    let first = build_mutation_batch_identity(&table_name, &schema, &backlog).unwrap();
    let second = build_mutation_batch_identity(&table_name, &schema, &backlog).unwrap();

    assert_eq!(first.batch_id, second.batch_id);
    assert_eq!(first.first_start_lsn, None);
    assert_eq!(first.last_commit_lsn, Some(PgLsn(200)));
}

#[test]
fn build_mutation_batch_identity_changes_with_order_and_sequence_key() {
    let schema = make_replicated_schema();
    let table_name = ducklake_table_name();
    let insert = |id: i32, name: &str| TableMutation::Insert(row(vec![integer(id), text(name)]));
    let original = build_mutation_batch_identity(
        &table_name,
        &schema,
        &vec![at(200, 0, insert(1, "alice")), at(200, 1, insert(2, "bob"))],
    )
    .unwrap();
    let reordered = build_mutation_batch_identity(
        &table_name,
        &schema,
        &vec![at(200, 0, insert(2, "bob")), at(200, 1, insert(1, "alice"))],
    )
    .unwrap();
    let changed_lsn = build_mutation_batch_identity(
        &table_name,
        &schema,
        &vec![at(201, 0, insert(1, "alice"))],
    )
    .unwrap();

    assert_ne!(original.batch_id, reordered.batch_id);
    assert_ne!(original.batch_id, changed_lsn.batch_id);
}

#[test]
fn build_truncate_batch_identity_changes_with_sequence_key() {
    let table_name = ducklake_table_name();
    let first = build_truncate_batch_identity(
        &table_name,
        &vec![TrackedTruncateEvent::new(key_at(400, 0), 0)],
    );
    let second = build_truncate_batch_identity(
        &table_name,
        &vec![TrackedTruncateEvent::new(key_at(401, 0), 0)],
    );

    assert_ne!(first.batch_id, second.batch_id);
}

#[test]
fn streaming_batches_obey_byte_limit_and_regroup_after_replay() {
    let schema = make_replicated_schema();
    let make = || {
        (0..40)
            .map(|id| {
                at(
                    100,
                    id,
                    TableMutation::Replace(row(vec![
                        integer(i32::try_from(id).unwrap()),
                        text(&"x".repeat(1024)),
                    ])),
                )
            })
            .collect::<Vec<_>>()
    };
    let batches = prepare_mutation_table_batches(
        DuckLakeStreamingBatchConfig::new(1024, 1).unwrap(),
        &schema,
        make(),
    )
    .unwrap();
    assert_eq!(batches.len(), 40);
    let pending = retain_mutations_after_sequence_key(make(), Some(key_at(100, 15)));
    let batches = prepare_mutation_table_batches(
        DuckLakeStreamingBatchConfig::new(1024, 1024 * 1024).unwrap(),
        &schema,
        pending,
    )
    .unwrap();
    assert_eq!(batches.len(), 1);
    assert_eq!(batches[0].first_sequence_key.unwrap().tx_ordinal, 16);
    assert_eq!(batches[0].last_sequence_key.unwrap().tx_ordinal, 39);
}

#[test]
fn absent_identity_keeps_an_empty_entry() {
    let schema = users(vec![
        column("id", TypeKind::Int8).with_identity(),
        column("value", TypeKind::Other),
    ]);
    let key = Cell::Value(Scalar::I64(1));
    let request = PartialUpdateRecoveryRequest::new(
        vec![PartialUpdateRecoveryKey {
            predicate: identity_predicate(&vec![(&schema.column_schemas()[0], &key)]),
            components: delete_key_components(
                &schema,
                DeletePredicateRowRef::Key(&row(vec![Cell::Value(Scalar::I64(1))])),
            )
            .unwrap(),
            mutation_index: 0,
        }],
        vec![1],
        usize::MAX,
    );

    let recovered = RecoveredPartialRows::for_request(&request);

    assert_eq!(recovered.rows_for("\"id\" = 1").map(Vec::len), Some(0));
    assert!(recovered.rows_for("\"id\" = 2").is_none());
}

#[test]
fn recovery_requests_sort_and_merge_their_columns() {
    let request = PartialUpdateRecoveryRequest::new(vec![], vec![4, 1, 4, 0], 9);
    assert_eq!(request.columns(), &vec![0, 1, 4]);
    assert_eq!(request.max_recovered_bytes(), 9);
    assert!(request.is_empty());
}

#[test]
fn recovery_keeps_only_requested_identities_until_it_is_cleared() {
    let request = PartialUpdateRecoveryRequest::new(
        vec![PartialUpdateRecoveryKey {
            predicate: "\"id\" = 1".to_owned(),
            components: vec![],
            mutation_index: 0,
        }],
        vec![1],
        usize::MAX,
    );
    let mut recovered = RecoveredPartialRows::for_request(&request);
    recovered.push("\"id\" = 1", row(vec![text("stored")]));
    recovered.push("\"id\" = 2", row(vec![text("stray")]));
    assert_eq!(recovered.columns(), &vec![1]);
    assert_eq!(recovered.rows_for("\"id\" = 1"), Some(&vec![row(vec![text("stored")])]));
    assert!(recovered.rows_for("\"id\" = 2").is_none());
    recovered.clear();
    assert!(recovered.rows_for("\"id\" = 1").is_none());
    assert!(recovered.columns().is_empty());
}

#[test]
fn recovery_is_budgeted_by_what_the_events_leave() {
    let config = DuckLakeStreamingBatchConfig::new(8, 1000).unwrap();
    let small = vec![at(1, 0, TableMutation::Insert(row(vec![])))];
    let large = vec![at(1, 0, TableMutation::Insert(row(vec![text(&"x".repeat(4096))])))];
    assert!(recovery_byte_budget(config, &small) > 1);
    assert_eq!(recovery_byte_budget(config, &large), 1);
}

#[test]
fn uncovered_identities_end_the_batch_before_their_first_event() {
    let key = |predicate: &str, mutation_index: usize| PartialUpdateRecoveryKey {
        predicate: predicate.to_owned(),
        components: vec![],
        mutation_index,
    };
    let request =
        PartialUpdateRecoveryRequest::new(vec![key("a", 0), key("b", 3)], vec![1], usize::MAX);
    assert_eq!(covered_mutation_count(5, &request, 1), 3);
    assert_eq!(covered_mutation_count(2, &request, 1), 2);
    assert_eq!(covered_mutation_count(5, &request, 2), 5);
}

#[test]
fn streaming_caps_must_admit_something() {
    for (rows, bytes) in [(0, 1), (1, 0), (0, 0)] {
        let error = DuckLakeStreamingBatchConfig::new(rows, bytes).unwrap_err();
        assert_eq!(error.kind(), ErrorKind::ConfigError);
    }
}

#[test]
fn cells_render_as_sql_literals() {
    assert_eq!(cell_to_sql_literal_ref(&Cell::Null), "NULL");
    assert_eq!(cell_to_sql_literal_ref(&Cell::Value(Scalar::Bool(true))), "true");
    assert_eq!(cell_to_sql_literal_ref(&Cell::Value(Scalar::I16(-7))), "-7");
    assert_eq!(
        cell_to_sql_literal_ref(&Cell::Value(Scalar::I64(i64::MIN))),
        "-9223372036854775808"
    );
    assert_eq!(
        cell_to_sql_literal_ref(&uuid_cell("01900000-0000-7000-8000-00000000000f")),
        "CAST('01900000-0000-7000-8000-00000000000f' AS UUID)"
    );
    assert_eq!(
        cell_to_sql_literal_ref(&Cell::Value(Scalar::Bytes(vec![0xAA, 0x0B]))),
        "CAST('\\xaa\\x0b' AS BLOB)"
    );
    // The literal is quoted by the crate that owns Postgres quoting rules.
    assert_eq!(cell_to_sql_literal_ref(&text("O'Brien")), "'O''Brien'");
    assert_eq!(cell_to_sql_literal_ref(&text("a\\b")), "E'a\\\\b'");
    assert_eq!(
        cell_to_sql_literal_ref(&Cell::Array(vec![Some(Scalar::I32(1)), None])),
        "[1, NULL]"
    );
    assert_eq!(table_row_to_sql_literal_ref(&row(vec![integer(1), Cell::Null])), "(1, NULL)");
}

#[test]
fn nested_values_force_sql_literals() {
    let nested = || row(vec![Cell::Array(vec![Some(Scalar::I32(1))])]);
    let plain = || row(vec![integer(1)]);
    assert_eq!(prepared_rows_kind(&prepare_rows(vec![plain()])), "appender");
    assert_eq!(prepared_rows_kind(&prepare_rows(vec![plain(), nested()])), "sql_literals");
    assert_eq!(prepared_rows_kind(&prepare_copy_rows(vec![plain()])), "arrow_record_batch");
    assert_eq!(prepared_rows_count(&prepare_rows(vec![plain(), nested()])), 2);
}

#[test]
fn names_are_quoted_for_the_lake() {
    let name = DuckLakeTableName::new("Pub\"lic", "users");
    assert_eq!(qualified_lake_table_name(&name), "\"lake\".\"Pub\"\"lic\".\"users\"");
    assert_eq!(name.id(), "Pub\"lic.users");
    assert!(!name.is_internal_helper());
}

#[test]
fn ordered_statements_keep_each_event_apart() {
    let schema = users(vec![
        column("id", TypeKind::Other).with_identity(),
        column("name", TypeKind::Other),
    ]);
    let prepared = prepare_ordered_table_mutations(
        &schema,
        vec![
            TableMutation::Insert(row(vec![text("a"), text("1")])),
            TableMutation::Insert(row(vec![text("b"), text("2")])),
            TableMutation::Delete(OldTableRow::Key(row(vec![text("a")]))),
            TableMutation::Replace(row(vec![text("b"), text("3")])),
        ],
    )
    .unwrap();
    let kinds: Vec<&str> = prepared
        .iter()
        .map(|operation| match operation {
            PreparedTableMutation::Upsert(_) => "insert",
            PreparedTableMutation::Delete { origin, .. } => origin.as_str(),
            PreparedTableMutation::Update { .. } => "update",
        })
        .collect();
    assert_eq!(kinds, ["insert", "delete", "replace", "insert"]);
}

#[test]
fn partial_rows_list_what_they_assign() {
    let schema = make_replicated_schema();
    let partial = PartialTableRow::new(2, row(vec![text("after")]), vec![0]);
    assert_eq!(
        update_assignments_from_partial_row(&schema, &partial).unwrap(),
        ["\"name\" = 'after'"]
    );
    for broken in [
        PartialTableRow::new(3, row(vec![text("after")]), vec![0, 1]),
        PartialTableRow::new(2, row(vec![text("after")]), vec![]),
        PartialTableRow::new(2, row(vec![text("after")]), vec![7]),
        PartialTableRow::new(2, row(vec![]), vec![1, 0]),
    ] {
        let error = update_assignments_from_partial_row(&schema, &broken).unwrap_err();
        assert_eq!(error.kind(), ErrorKind::InvalidState);
    }
}

#[test]
fn stored_values_complete_partial_rows() {
    let schema = users(vec![
        column("id", TypeKind::Int4).with_identity(),
        column("name", TypeKind::Other),
        column("payload", TypeKind::Other),
    ]);
    let partial = PartialTableRow::new(3, row(vec![integer(1), text("after")]), vec![2]);
    let stored = vec![text("toasted")];
    let completed = complete_partial_row(&schema, &partial, &vec![2], &stored).unwrap();
    assert_eq!(completed, row(vec![integer(1), text("after"), text("toasted")]));
    let error = complete_partial_row(&schema, &partial, &vec![1], &stored).unwrap_err();
    assert_eq!(error.kind(), ErrorKind::InvalidState);
}

#[test]
fn copy_and_truncate_batches_carry_their_bookkeeping() {
    let complete =
        prepare_copy_complete_table_batch(ducklake_table_name(), "epoch".to_owned());
    assert_eq!(complete.batch_kind, DuckLakeTableBatchKind::CopyComplete);
    assert_eq!(
        complete.batch_id,
        build_copy_complete_batch_identity(&ducklake_table_name()).batch_id
    );
    assert!(!complete.uses_streaming_progress());

    let truncate = prepare_truncate_table_batch(
        ducklake_table_name(),
        "epoch".to_owned(),
        vec![
            TrackedTruncateEvent::new(key_at(5, 1), 0),
            TrackedTruncateEvent::new(key_at(6, 2), 0),
        ],
    );
    assert_eq!(truncate.first_sequence_key, Some(key_at(5, 1)));
    assert_eq!(truncate.last_sequence_key, Some(key_at(6, 2)));
    assert_eq!(truncate.last_commit_lsn, Some(PgLsn(6)));
    assert!(truncate.uses_streaming_progress());
    assert_eq!(batch_log_kind(&truncate), "truncate");
    assert_eq!(prepared_mutation_count(&truncate), 1);
}

#[test]
fn fingerprints_are_fnv_of_what_was_written() {
    assert_eq!(BatchIdHasher::new().finish(), 0xcbf2_9ce4_8422_2325);
    let mut hasher = BatchIdHasher::new();
    hasher.write(b"a");
    assert_eq!(hasher.finish(), 0xaf63_dc4c_8601_ec8c);
    let mut hasher = BatchIdHasher::new();
    hasher.write(b"foobar");
    assert_eq!(hasher.finish(), 0x8594_4171_f739_67e8);
    let identity = build_batch_identity(
        DuckLakeTableBatchKind::Mutation,
        Some(PgLsn(1)),
        Some(PgLsn(0x20)),
        hasher.finish(),
    );
    assert!(identity.batch_id.contains("85944171f73967e8"));
    assert_eq!(identity.last_commit_lsn, Some(PgLsn(0x20)));
}

#[test]
fn buffered_copies_must_be_one_upsert() {
    let schema = make_replicated_schema();
    let mut copy = prepare_copy_table_batch(
        &schema,
        ducklake_table_name(),
        "epoch".to_owned(),
        "copy-1".to_owned(),
        vec![row(vec![integer(1), text("a")])],
    );
    copy.batch.action = PreparedDuckLakeTableBatchAction::Truncate;
    let error = copy.into_buffer_parts().unwrap_err();
    assert_eq!(error.description(), "DuckLake buffered copy batch is not a mutation");

    let mut copy = prepare_copy_table_batch(
        &schema,
        ducklake_table_name(),
        "epoch".to_owned(),
        "copy-1".to_owned(),
        vec![row(vec![integer(1), text("a")])],
    );
    copy.batch.action = PreparedDuckLakeTableBatchAction::Mutation(vec![]);
    let error = copy.into_buffer_parts().unwrap_err();
    assert_eq!(error.description(), "DuckLake buffered copy batch has an invalid mutation count");
    assert_eq!(error.detail.as_deref(), Some("Expected 1 mutation, got 0"));

    let mut copy = prepare_copy_table_batch(
        &schema,
        ducklake_table_name(),
        "epoch".to_owned(),
        "copy-1".to_owned(),
        vec![row(vec![integer(1), text("a")])],
    );
    copy.batch.action =
        PreparedDuckLakeTableBatchAction::Mutation(vec![PreparedTableMutation::Update {
            assignments: vec![],
            predicate: String::new(),
        }]);
    let error = copy.into_buffer_parts().unwrap_err();
    assert_eq!(error.description(), "DuckLake buffered copy mutation is not an upsert");
}

#[test]
fn retaining_twice_is_retaining_after_the_greater_position() {
    let backlog = || {
        (0..6).map(|ordinal| at(100, ordinal, TableMutation::Insert(row(vec![])))).collect()
    };
    let kept = |backlog: Vec<TrackedTableMutation>| {
        backlog.iter().map(|entry| entry.sequence_key().tx_ordinal).collect::<Vec<_>>()
    };
    for (first, second) in [(1, 3), (3, 1), (2, 2)] {
        let once = retain_mutations_after_sequence_key(backlog(), Some(key_at(100, first)));
        let twice = retain_mutations_after_sequence_key(once, Some(key_at(100, second)));
        let greater =
            retain_mutations_after_sequence_key(backlog(), Some(key_at(100, first.max(second))));
        assert_eq!(kept(twice), kept(greater));
    }
}

#[test]
fn batch_inputs_are_closed_only_when_they_are_full() {
    let backlog = |sizes: &[usize]| {
        sizes
            .iter()
            .enumerate()
            .map(|(i, size)| {
                at(100, i as u64, TableMutation::Insert(row(vec![text(&"x".repeat(*size))])))
            })
            .collect::<Vec<_>>()
    };
    let lengths = |max_rows: usize, max_bytes: usize, sizes: &[usize]| {
        let config = DuckLakeStreamingBatchConfig::new(max_rows, max_bytes).unwrap();
        split_tracked_mutations(config, backlog(sizes)).iter().map(Vec::len).collect::<Vec<_>>()
    };
    assert_eq!(lengths(3, 1 << 20, &[1; 7]), [3, 3, 1]);
    assert_eq!(lengths(3, 1 << 20, &[1; 6]), [3, 3]);
    // A mutation over the cap stands alone, and the one before it closes early.
    assert_eq!(lengths(8, 4096, &[1, 1, 9000, 1, 1]), [2, 1, 2]);
}

#[test]
fn identity_is_requested_when_its_first_event_leaves_columns_out() {
    let schema = users(vec![
        column("id", TypeKind::Int4).with_identity(),
        column("name", TypeKind::Other),
        column("payload", TypeKind::Other),
    ]);
    let partial = |id: i32, missing: usize| TableMutation::Update {
        delete_row: OldTableRow::Key(row(vec![integer(id)])),
        new_row: UpdatedTableRow::Partial(PartialTableRow::new(
            3,
            row(vec![integer(id), text("given")]),
            vec![missing],
        )),
    };
    let written =
        |id: i32| TableMutation::Replace(row(vec![integer(id), text("a"), text("b")]));
    let events = [partial(2, 2), written(1), partial(1, 1), partial(2, 1), partial(3, 2)];
    let request =
        plan_partial_update_recovery(&schema, &events.iter().collect(), usize::MAX).unwrap();
    let keys: Vec<(&str, usize)> =
        request.keys().iter().map(|key| (key.predicate.as_str(), key.mutation_index)).collect();
    // The first event at one of the identities is whole, so neither it nor the
    // column its later event leaves out is read.
    assert_eq!(keys, [("\"id\" = 2", 0), ("\"id\" = 3", 4)]);
    assert_eq!(request.columns(), &vec![2]);
}
