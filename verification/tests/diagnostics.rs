//! Failure diagnostics.

use ducklake_batches::diagnostics::{
    is_duckdb_interrupt_error, query_log_detail, sensitive_query_error, QUERY_ERROR_DETAILS,
};
use ducklake_batches::error::{clone_error, ErrorKind, EtlError};
use ducklake_batches::schema::DuckLakeTableName;
use ducklake_batches::statements::{
    build_delete_statements, build_update_statement, format_delete_mutation_error_detail,
    format_update_mutation_error_detail, Statement,
};

#[test]
fn preserves_original_failure_diagnostics_exactly_when_enabled() {
    let original = "Conversion Error: could not convert string 'O''Brien' to INT32; SQL: \
                    UPDATE \"lake\".\"events\" SET value = 'O''Brien' WHERE id = \
                    '01a085dc-f003-7ee2-9477-31550487b0f1';";
    let actual = query_log_detail(original, QUERY_ERROR_DETAILS);
    if QUERY_ERROR_DETAILS {
        assert_eq!(actual, original);
    } else {
        assert_eq!(actual, "query error details disabled");
    }
    assert_eq!(query_log_detail(original, true), original);
    assert_eq!(query_log_detail(original, false), "query error details disabled");
}

#[test]
fn sensitive_query_errors_carry_sql_only_when_enabled() {
    assert_eq!(
        sensitive_query_error("boom", "DELETE FROM t", true),
        "boom; SQL: DELETE FROM t"
    );
    assert_eq!(
        sensitive_query_error("boom", "DELETE FROM t", false),
        "DuckDB query failed; error message omitted because it may contain row values"
    );
}

fn ducklake_table_name() -> DuckLakeTableName {
    DuckLakeTableName::new("public", "users")
}

/// Everything an error says, its cause and driver text included.
fn everything_said(error: &EtlError) -> String {
    format!("{error:?}")
}

fn assert_query_failure_omits_sensitive_value(
    statement: &Statement,
    description: &str,
    sensitive_value: &str,
) {
    let driver = format!("Binder Error near {sensitive_value}");
    let error = statement.failed(driver.as_str(), QUERY_ERROR_DETAILS);
    assert_eq!(error.kind(), ErrorKind::DestinationQueryFailed);
    assert_eq!(error.description(), description);
    assert!(!QUERY_ERROR_DETAILS);
    assert!(!everything_said(&error).contains(sensitive_value));
    assert!(!error.detail.as_ref().is_some_and(|detail| detail.contains(sensitive_value)));
    let source = error.driver.as_ref().expect("expected sanitized source");
    assert!(!source.contains(sensitive_value));
    assert!(source.contains("omitted because it may contain row values"));

    let detailed = statement.failed(driver.as_str(), true);
    assert!(everything_said(&detailed).contains(sensitive_value));
    assert!(everything_said(&detailed).contains("SQL:"));
}

#[test]
fn apply_delete_mutation_failure_omits_row_values_from_detail() {
    let sensitive_value = "alice@example.com";
    let predicates = vec![format!("\"email\" = '{sensitive_value}'")];

    let statements = build_delete_statements(&ducklake_table_name(), &predicates);

    assert_eq!(statements.len(), 1);
    assert_query_failure_omits_sensitive_value(
        &statements[0],
        "DuckLake DELETE failed",
        sensitive_value,
    );
}

#[test]
fn apply_update_mutation_failure_omits_row_values_from_detail() {
    let sensitive_value = "secret-token";
    let assignments = vec![format!("\"token\" = '{sensitive_value}'")];
    let predicate = format!("\"token\" = '{sensitive_value}'");

    let statement =
        build_update_statement(&ducklake_table_name(), &assignments, predicate.as_str());

    assert_query_failure_omits_sensitive_value(
        &statement,
        "DuckLake UPDATE failed",
        sensitive_value,
    );
}

#[test]
fn failed_statements_count_what_they_would_have_changed() {
    let predicates: Vec<String> = (0..17).map(|id| format!("\"id\" = {id}")).collect();
    let statements = build_delete_statements(&ducklake_table_name(), &predicates);
    assert_eq!(statements.len(), 2);
    assert_eq!(
        statements[1].sql,
        "DELETE FROM \"lake\".\"public\".\"users\" WHERE (\"id\" = 16);"
    );
    assert_eq!(
        statements[1].detail.as_deref(),
        Some(
            format_delete_mutation_error_detail("\"lake\".\"public\".\"users\"", 17, 1, 2, 1)
                .as_str()
        )
    );

    let assignments = vec!["\"a\" = 1".to_owned(), "\"b\" = 2".to_owned()];
    let update = build_update_statement(&ducklake_table_name(), &assignments, "\"id\" = 3");
    assert_eq!(
        update.sql,
        "UPDATE \"lake\".\"public\".\"users\" SET \"a\" = 1, \"b\" = 2 WHERE \"id\" = 3;"
    );
    assert_eq!(
        update.detail.as_deref(),
        Some(
            format_update_mutation_error_detail("\"lake\".\"public\".\"users\"", 2, true).as_str()
        )
    );
}

#[test]
fn interrupted_queries_are_told_by_their_message() {
    assert!(is_duckdb_interrupt_error("INTERRUPT Error: Interrupted"));
    assert!(is_duckdb_interrupt_error("query failed: INTERRUPT Error: Interrupted!"));
    assert!(is_duckdb_interrupt_error("INTERRUPT Error: INTERRUPT Error: Interrupted"));
    assert!(!is_duckdb_interrupt_error("INTERRUPT Error: interrupted"));
    assert!(!is_duckdb_interrupt_error("Interrupted"));
    assert!(!is_duckdb_interrupt_error(""));
}

#[test]
fn copied_errors_keep_their_causes() {
    let inner = EtlError::with_detail(ErrorKind::InvalidState, "inner", "why".to_owned());
    let outer = EtlError {
        kind: ErrorKind::DestinationQueryFailed,
        description: "outer".to_owned(),
        detail: None,
        driver: Some("driver".to_owned()),
        cause: Some(Box::new(inner)),
    };
    assert_eq!(clone_error(&outer), outer);
}
