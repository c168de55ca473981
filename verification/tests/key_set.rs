//! Key sets of batched deletes and reads.

use std::cmp::Ordering;

use ducklake_batches::data::{Cell, Scalar};
use ducklake_batches::key_set::{ColumnBound, DeleteKeySet, KeyComponent, KeyOrdinal};
use ducklake_batches::literal::cell_to_sql_literal_ref;
use ducklake_batches::schema::{ColumnSchema, ColumnType, ReplicatedTableSchema, TypeKind};

fn column(name: &str, kind: TypeKind, catalog_name: &str) -> ColumnSchema {
    ColumnSchema::new(name, ColumnType::new(kind, false, catalog_name))
}

fn uuid_key_schema() -> ReplicatedTableSchema {
    ReplicatedTableSchema::new(
        "public.traces",
        vec![
            column("trace_id", TypeKind::Uuid, "uuid").with_identity(),
            column("payload", TypeKind::Other, "text"),
        ],
    )
}

fn int8_key_schema() -> ReplicatedTableSchema {
    ReplicatedTableSchema::new(
        "public.traces",
        vec![
            column("id", TypeKind::Int8, "int8").with_identity(),
            column("payload", TypeKind::Other, "text"),
        ],
    )
}

fn composite_key_schema() -> ReplicatedTableSchema {
    ReplicatedTableSchema::new(
        "public.traces",
        vec![
            column("tenant_id", TypeKind::Int4, "int4").with_identity(),
            column("trace_id", TypeKind::Uuid, "uuid").with_identity(),
            column("payload", TypeKind::Other, "text"),
        ],
    )
}

fn components(cells: &[Cell]) -> Vec<KeyComponent> {
    cells.iter().map(|cell| KeyComponent::from_cell(cell, cell_to_sql_literal_ref(cell))).collect()
}

fn uuid_cell(value: &str) -> Cell {
    Cell::Value(Scalar::Uuid(uuid::Uuid::parse_str(value).unwrap().as_u128()))
}

fn i32_cell(value: i32) -> Cell {
    Cell::Value(Scalar::I32(value))
}

fn i64_cell(value: i64) -> Cell {
    Cell::Value(Scalar::I64(value))
}

#[test]
fn empty_key_set_has_no_clause() {
    let mut key_set = DeleteKeySet::new(&uuid_key_schema());

    assert_eq!(key_set.take_clause(), None);
    assert_eq!(key_set.take_join_clause(), None);
}

#[test]
fn uuid_key_set_brackets_keys_with_a_range_predicate() {
    let mut key_set = DeleteKeySet::new(&uuid_key_schema());
    for value in [
        "01900000-0000-7000-8000-000000000002",
        "01800000-0000-7000-8000-000000000001",
        "01a00000-0000-7000-8000-000000000003",
    ] {
        key_set.push(&components(&[uuid_cell(value)]));
    }

    assert_eq!(
        key_set.take_clause().unwrap(),
        "USING (VALUES (CAST('01900000-0000-7000-8000-000000000002' AS \
         UUID)),(CAST('01800000-0000-7000-8000-000000000001' AS \
         UUID)),(CAST('01a00000-0000-7000-8000-000000000003' AS UUID))) AS \
         cdc_keys(\"trace_id\") WHERE cdc_target.\"trace_id\" IS NOT DISTINCT FROM \
         cdc_keys.\"trace_id\" AND cdc_target.\"trace_id\" >= \
         CAST('01800000-0000-7000-8000-000000000001' AS UUID) AND cdc_target.\"trace_id\" <= \
         CAST('01a00000-0000-7000-8000-000000000003' AS UUID)"
    );
}

#[test]
fn int8_key_set_brackets_keys_numerically() {
    let mut key_set = DeleteKeySet::new(&int8_key_schema());
    for value in [7_i64, -9, 100, 42] {
        key_set.push(&components(&[i64_cell(value)]));
    }

    assert_eq!(
        key_set.take_clause().unwrap(),
        "USING (VALUES (7),(-9),(100),(42)) AS cdc_keys(\"id\") WHERE cdc_target.\"id\" IS \
         NOT DISTINCT FROM cdc_keys.\"id\" AND cdc_target.\"id\" >= -9 AND cdc_target.\"id\" \
         <= 100"
    );
}

#[test]
fn composite_key_set_brackets_each_identity_column_independently() {
    let mut key_set = DeleteKeySet::new(&composite_key_schema());
    key_set.push(&components(&[i32_cell(5), uuid_cell("01900000-0000-7000-8000-000000000002")]));
    key_set.push(&components(&[i32_cell(2), uuid_cell("01800000-0000-7000-8000-000000000001")]));

    assert_eq!(
        key_set.take_clause().unwrap(),
        "USING (VALUES (5,CAST('01900000-0000-7000-8000-000000000002' AS \
         UUID)),(2,CAST('01800000-0000-7000-8000-000000000001' AS UUID))) AS \
         cdc_keys(\"tenant_id\",\"trace_id\") WHERE cdc_target.\"tenant_id\" IS NOT DISTINCT \
         FROM cdc_keys.\"tenant_id\" AND cdc_target.\"trace_id\" IS NOT DISTINCT FROM \
         cdc_keys.\"trace_id\" AND cdc_target.\"tenant_id\" >= 2 AND cdc_target.\"tenant_id\" \
         <= 5 AND cdc_target.\"trace_id\" >= CAST('01800000-0000-7000-8000-000000000001' AS \
         UUID) AND cdc_target.\"trace_id\" <= CAST('01900000-0000-7000-8000-000000000002' AS \
         UUID)"
    );
}

#[test]
fn null_key_component_drops_the_range_for_that_column_only() {
    let mut key_set = DeleteKeySet::new(&composite_key_schema());
    key_set.push(&components(&[i32_cell(5), uuid_cell("01900000-0000-7000-8000-000000000002")]));
    key_set.push(&components(&[i32_cell(2), Cell::Null]));

    let clause = key_set.take_clause().unwrap();

    assert!(clause.contains("cdc_target.\"tenant_id\" >= 2"));
    assert!(clause.contains("cdc_target.\"tenant_id\" <= 5"));
    assert!(!clause.contains("cdc_target.\"trace_id\" >="));
    assert!(!clause.contains("cdc_target.\"trace_id\" <="));
    assert!(clause.contains("cdc_target.\"trace_id\" IS NOT DISTINCT FROM cdc_keys.\"trace_id\""));
}

#[test]
fn single_key_set_emits_an_equal_minimum_and_maximum() {
    let mut key_set = DeleteKeySet::new(&uuid_key_schema());
    key_set.push(&components(&[uuid_cell("01900000-0000-7000-8000-000000000002")]));

    let clause = key_set.take_clause().unwrap();

    assert!(clause.contains(
        "cdc_target.\"trace_id\" >= CAST('01900000-0000-7000-8000-000000000002' AS UUID)"
    ));
    assert!(clause.contains(
        "cdc_target.\"trace_id\" <= CAST('01900000-0000-7000-8000-000000000002' AS UUID)"
    ));
}

#[test]
fn take_clause_resets_the_accumulated_bounds() {
    let mut key_set = DeleteKeySet::new(&int8_key_schema());
    key_set.push(&components(&[i64_cell(1000)]));
    key_set.take_clause().unwrap();

    key_set.push(&components(&[i64_cell(5)]));

    let clause = key_set.take_clause().unwrap();
    assert!(clause.contains("cdc_target.\"id\" >= 5"));
    assert!(clause.contains("cdc_target.\"id\" <= 5"));
    assert!(!clause.contains("1000"));
}

/// The database compares UUIDs by their big-endian bytes, as unsigned numbers.
/// The samples are in that order and span the sign bit, so a signed comparison
/// would disagree.
#[test]
fn uuid_key_ordinal_matches_duckdb_ordering() {
    let samples = [
        "00000000-0000-0000-0000-000000000000",
        "01800000-0000-7000-8000-000000000001",
        "01900000-0000-7000-8000-000000000002",
        "7fffffff-ffff-ffff-ffff-ffffffffffff",
        "80000000-0000-0000-0000-000000000000",
        "ffffffff-ffff-ffff-ffff-ffffffffffff",
    ];
    let mut database_order = samples.to_vec();
    database_order.sort_by_key(|value| uuid::Uuid::parse_str(value).unwrap().into_bytes());
    assert_eq!(database_order, samples);

    let mut rust_order = samples.to_vec();
    rust_order.reverse();
    rust_order.sort_by_key(|value| match KeyOrdinal::from_cell(&uuid_cell(value)).unwrap() {
        KeyOrdinal::Uuid(image) => image,
        KeyOrdinal::Integer(_) => unreachable!("uuid cell yields a uuid ordinal"),
    });

    assert_eq!(database_order, rust_order);
}

#[test]
fn join_clause_reads_the_same_keys_and_bounds() {
    let mut key_set = DeleteKeySet::new(&int8_key_schema());
    key_set.push(&components(&[i64_cell(7)]));
    key_set.push(&components(&[i64_cell(-9)]));

    assert_eq!(
        key_set.take_join_clause().unwrap(),
        " JOIN (VALUES (7),(-9)) AS cdc_keys(\"id\") ON cdc_target.\"id\" IS NOT DISTINCT FROM \
         cdc_keys.\"id\" AND cdc_target.\"id\" >= -9 AND cdc_target.\"id\" <= 7"
    );
    assert_eq!(key_set.take_join_clause(), None);
}

#[test]
fn only_images_of_one_kind_compare() {
    let one = KeyOrdinal::Integer(1);
    let two = KeyOrdinal::Integer(2);
    let uuid = KeyOrdinal::Uuid(1);
    assert_eq!(one.compare(two), Some(Ordering::Less));
    assert_eq!(two.compare(one), Some(Ordering::Greater));
    assert_eq!(one.compare(one), Some(Ordering::Equal));
    assert_eq!(one.compare(uuid), None);
    assert_eq!(KeyOrdinal::from_cell(&Cell::Null), None);
    assert_eq!(KeyOrdinal::from_cell(&Cell::Value(Scalar::Bool(true))), None);
    assert_eq!(
        KeyOrdinal::from_cell(&Cell::Value(Scalar::I16(-3))),
        Some(KeyOrdinal::Integer(-3))
    );
    assert_eq!(
        KeyOrdinal::from_cell(&Cell::Value(Scalar::U32(u32::MAX))),
        Some(KeyOrdinal::Integer(4_294_967_295))
    );
}

#[test]
fn key_of_another_width_drops_every_range() {
    let mut key_set = DeleteKeySet::new(&int8_key_schema());
    key_set.push(&components(&[i64_cell(1)]));
    key_set.push(&components(&[i64_cell(2), i64_cell(3)]));

    let clause = key_set.take_clause().unwrap();

    assert!(clause.contains("(VALUES (1),(2,3))"));
    assert!(!clause.contains(">="));
}

#[test]
fn bounds_carry_the_literal_of_the_first_key_at_them() {
    let mut key_set = DeleteKeySet::new(&int8_key_schema());
    for (value, literal) in [(5_i64, "5"), (2, "2"), (5, "05"), (2, "02"), (3, "3")] {
        key_set.push(&vec![KeyComponent::from_cell(&i64_cell(value), literal.to_owned())]);
    }

    let clause = key_set.take_clause().unwrap();

    assert!(clause.ends_with("cdc_target.\"id\" >= 2 AND cdc_target.\"id\" <= 5"));
}

#[test]
fn disabled_bound_stays_disabled() {
    let mut key_set = DeleteKeySet::new(&int8_key_schema());
    for cell in [
        i64_cell(1),
        uuid_cell("01900000-0000-7000-8000-000000000002"),
        i64_cell(2),
        i64_cell(3),
    ] {
        key_set.push(&components(&[cell]));
    }

    assert!(!key_set.take_clause().unwrap().contains(">="));
}

#[test]
fn observed_bound_is_the_range_of_comparable_keys() {
    let observe = |bound: &mut ColumnBound, value: i64, literal: &str| {
        bound.observe(&KeyComponent::from_cell(&i64_cell(value), literal.to_owned()));
    };
    let end = |value: i64, literal: &str| (KeyOrdinal::Integer(value), literal.to_owned());
    let mut bound = ColumnBound::Unset;
    observe(&mut bound, 5, "5");
    assert_eq!(bound, ColumnBound::Range { min: end(5, "5"), max: end(5, "5") });
    for (value, literal) in [(2, "2"), (5, "05"), (2, "02"), (9, "9")] {
        observe(&mut bound, value, literal);
    }
    assert_eq!(bound, ColumnBound::Range { min: end(2, "2"), max: end(9, "9") });
    bound.observe(&components(&[Cell::Null])[0]);
    assert_eq!(bound, ColumnBound::Disabled);
    observe(&mut bound, 1, "1");
    assert_eq!(bound, ColumnBound::Disabled);
}
