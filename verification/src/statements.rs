//! SQL statements of table batches and replay bookkeeping.

use vstd::prelude::*;

use crate::batches::PreparedDuckLakeBatchMarker;
use crate::diagnostics::{sensitive_query_error, sensitive_text};
use crate::error::{optional_text, ErrorKind, ErrorView, EtlError};
use crate::external::{literal_text, quote_literal};
use crate::reading::{
    inside, law_joined_items_read_back, law_number_is_one_item, law_number_literal_reads_back,
    law_text_literal_is_one_item, lemma_inside, meaning, meanings, one_item, Meaning,
};
use crate::schema::{
    lake_table, qualified_lake_table_name, table_id, DuckLakeTableName, TableNameView, LAKE_CATALOG,
};
use crate::sequence::{
    law_lsn_literal_reads_back, lsn_literal, optional_lsn_to_sql_literal, EventSequenceKey, PgLsn,
};
use crate::streaming_progress::{written_names, StreamingProgressTable};
use crate::text::{
    decimal, decimal_int, decimal_u64, join_texts, joined, quote_identifier, quoted, texts,
};

verus! {

/// Table holding the applied copy batches of each table.
pub const APPLIED_BATCHES_TABLE: &'static str = "__etl_applied_table_batches";

/// Replay epoch column shared by the helper tables.
pub const REPLAY_EPOCH_COLUMN: &'static str = "replay_epoch";

/// Replay epoch of rows written before epochs were recorded.
pub const LEGACY_REPLAY_EPOCH: &'static str = "legacy";

/// Rows of helper tables kept inline in the catalog.
pub const HELPER_TABLE_DATA_INLINING_ROW_LIMIT: u64 = 256;

/// One SQL statement, and how its failure is reported.
#[derive(Debug, PartialEq)]
pub struct Statement {
    pub sql: String,
    /// Description of the error raised when the statement fails.
    pub failure: String,
    /// Detail of that error.
    pub detail: Option<String>,
    /// Whether the text, and errors about it, may carry row values.
    pub sensitive: bool,
}

/// Contents of a [`Statement`].
pub struct StatementView {
    pub sql: Seq<char>,
    pub failure: Seq<char>,
    pub detail: Option<Seq<char>>,
    pub sensitive: bool,
}

impl View for Statement {
    type V = StatementView;

    open spec fn view(&self) -> StatementView {
        StatementView {
            sql: self.sql@,
            failure: self.failure@,
            detail: optional_text(self.detail),
            sensitive: self.sensitive,
        }
    }
}

/// Contents of a list of statements.
pub open spec fn statement_views(statements: Seq<Statement>) -> Seq<StatementView> {
    statements.map_values(|s: Statement| s@)
}

/// The error a failed statement is reported as. Its driver text is left out
/// where it may carry row values, unless details are enabled.
pub open spec fn statement_error(
    statement: StatementView,
    driver: Seq<char>,
    details: bool,
) -> ErrorView {
    ErrorView {
        kind: ErrorKind::DestinationQueryFailed,
        description: statement.failure,
        detail: statement.detail,
        driver: Some(
            if statement.sensitive {
                sensitive_text(driver, statement.sql, details)
            } else {
                driver
            },
        ),
        cause: None,
    }
}

impl Statement {
    /// Creates a statement whose failure has no detail.
    pub(crate) fn plain(sql: String, failure: &str) -> (r: Statement)
        ensures
            r@ == plain_statement(sql@, failure@),
    {
        Statement { sql, failure: failure.to_owned(), detail: None, sensitive: false }
    }

    /// Creates a statement whose failure quotes its text.
    pub(crate) fn quoted(sql: String, failure: &str) -> (r: Statement)
        ensures
            r@ == quoted_statement(sql@, failure@),
    {
        let detail = format_query_error_detail(sql.as_str());
        Statement { sql, failure: failure.to_owned(), detail: Some(detail), sensitive: false }
    }

    /// Reports a failure of the statement under another description.
    pub fn failed_as(&self, failure: &str, driver: &str, details: bool) -> (r: EtlError)
        ensures
            r@ == statement_error(
                (StatementView { failure: failure@, ..self@ }),
                driver@,
                details,
            ),
    {
        let mut error = self.failed(driver, details);
        error.description = failure.to_owned();
        error
    }

    /// Reports a failure of the statement.
    pub fn failed(&self, driver: &str, details: bool) -> (r: EtlError)
        ensures
            r@ == statement_error(self@, driver@, details),
    {
        let text = if self.sensitive {
            sensitive_query_error(driver, self.sql.as_str(), details)
        } else {
            driver.to_owned()
        };
        let detail = match &self.detail {
            None => None,
            Some(detail) => Some(detail.clone()),
        };
        EtlError {
            kind: ErrorKind::DestinationQueryFailed,
            description: self.failure.clone(),
            detail,
            driver: Some(text),
            cause: None,
        }
    }
}

/// A failing statement that carries row values says nothing of them: with
/// details disabled the reported error is the same for every driver text and
/// every statement text.
pub proof fn law_sensitive_failures_say_nothing_of_their_values(
    left: StatementView,
    right: StatementView,
    left_driver: Seq<char>,
    right_driver: Seq<char>,
)
    requires
        left.sensitive,
        right.sensitive,
        left.failure == right.failure,
        left.detail == right.detail,
    ensures
        statement_error(left, left_driver, false) == statement_error(right, right_driver, false),
{
}

/// The detail that quotes a statement.
pub open spec fn query_detail(sql: Seq<char>) -> Seq<char> {
    "sql: "@ + sql
}

/// Formats the detail that quotes a statement.
pub fn format_query_error_detail(sql: &str) -> (r: String)
    ensures
        r@ == query_detail(sql@),
{
    let mut detail = "sql: ".to_owned();
    detail.append(sql);
    detail
}

/// A statement whose failure has no detail.
pub open spec fn plain_statement(sql: Seq<char>, failure: Seq<char>) -> StatementView {
    StatementView { sql, failure, detail: None, sensitive: false }
}

/// A statement whose failure quotes its text.
pub open spec fn quoted_statement(sql: Seq<char>, failure: Seq<char>) -> StatementView {
    StatementView { sql, failure, detail: Some(query_detail(sql)), sensitive: false }
}

/// A statement that carries row values.
pub open spec fn sensitive_statement(
    sql: Seq<char>,
    failure: Seq<char>,
    detail: Option<Seq<char>>,
) -> StatementView {
    StatementView { sql, failure, detail, sensitive: true }
}

/// What the failure of a delete statement says: counts, and no row values.
pub open spec fn delete_detail(
    target: Seq<char>,
    predicate_count: nat,
    chunk_index: nat,
    chunk_count: nat,
    chunk_predicate_count: nat,
) -> Seq<char> {
    "sql: DELETE FROM "@ + target + " WHERE [redacted predicates]; predicate_count: "@ + decimal(
        predicate_count,
    ) + "; chunk_index: "@ + decimal(chunk_index) + "; chunk_count: "@ + decimal(chunk_count)
        + "; chunk_predicate_count: "@ + decimal(chunk_predicate_count)
}

/// Formats what the failure of a delete statement says.
pub fn format_delete_mutation_error_detail(
    target_table: &str,
    predicate_count: usize,
    chunk_index: usize,
    chunk_count: usize,
    chunk_predicate_count: usize,
) -> (r: String)
    ensures
        r@ == delete_detail(
            target_table@,
            predicate_count as nat,
            chunk_index as nat,
            chunk_count as nat,
            chunk_predicate_count as nat,
        ),
{
    let mut detail = "sql: DELETE FROM ".to_owned();
    detail.append(target_table);
    detail.append(" WHERE [redacted predicates]; predicate_count: ");
    detail.append(decimal_u64(predicate_count as u64).as_str());
    detail.append("; chunk_index: ");
    detail.append(decimal_u64(chunk_index as u64).as_str());
    detail.append("; chunk_count: ");
    detail.append(decimal_u64(chunk_count as u64).as_str());
    detail.append("; chunk_predicate_count: ");
    detail.append(decimal_u64(chunk_predicate_count as u64).as_str());
    detail
}

/// What the failure of an update statement says: counts, and no row values.
pub open spec fn update_detail(
    target: Seq<char>,
    assignment_count: nat,
    has_predicate: bool,
) -> Seq<char> {
    "sql: UPDATE "@ + target
        + " SET [redacted assignments] WHERE [redacted predicate]; assignment_count: "@ + decimal(
        assignment_count,
    ) + "; has_predicate: "@ + (if has_predicate {
        "true"@
    } else {
        "false"@
    })
}

/// Formats what the failure of an update statement says.
pub fn format_update_mutation_error_detail(
    target_table: &str,
    assignment_count: usize,
    has_predicate: bool,
) -> (r: String)
    ensures
        r@ == update_detail(target_table@, assignment_count as nat, has_predicate),
{
    let mut detail = "sql: UPDATE ".to_owned();
    detail.append(target_table);
    detail.append(" SET [redacted assignments] WHERE [redacted predicate]; assignment_count: ");
    detail.append(decimal_u64(assignment_count as u64).as_str());
    detail.append("; has_predicate: ");
    detail.append(
        if has_predicate {
            "true"
        } else {
            "false"
        },
    );
    detail
}

/// The quoted columns of an insert or select list.
pub open spec fn column_list(names: Seq<Seq<char>>) -> Seq<char> {
    joined(names.map_values(|n: Seq<char>| quoted(n)), ", "@)
}

/// Joins quoted column names for an insert or select list.
pub fn quoted_column_list(column_names: &Vec<String>) -> (r: String)
    ensures
        r@ == column_list(texts(column_names@)),
{
    let mut parts: Vec<String> = Vec::new();
    let ghost names = texts(column_names@);
    for i in 0..column_names.len()
        invariant
            names == texts(column_names@),
            parts@.len() == i,
            forall|j: int| 0 <= j < i ==> (#[trigger] parts@[j])@ == quoted(names[j]),
    {
        assert(names[i as int] == column_names@[i as int]@);
        parts.push(quote_identifier(column_names[i].as_str()));
    }
    assert(texts(parts@) =~= names.map_values(|n: Seq<char>| quoted(n)));
    join_texts(&parts, ", ")
}

/// The quoted name of a helper table in the lake.
pub open spec fn helper_table(name: Seq<char>) -> Seq<char> {
    LAKE_CATALOG@ + ".\""@ + name + "\""@
}

fn helper_table_name(name: &str) -> (r: String)
    ensures
        r@ == helper_table(name@),
{
    let mut text = LAKE_CATALOG.to_owned();
    text.append(".\"");
    text.append(name);
    text.append("\"");
    text
}

/// The statement that empties a table.
pub open spec fn truncate_statement(table: TableNameView) -> StatementView {
    quoted_statement(
        "TRUNCATE TABLE "@ + lake_table(table) + ";"@,
        "DuckLake TRUNCATE TABLE failed"@,
    )
}

/// Builds the statement that empties a table.
pub fn build_truncate_statement(table: &DuckLakeTableName) -> (r: Statement)
    ensures
        r@ == truncate_statement(table@),
{
    let mut sql = "TRUNCATE TABLE ".to_owned();
    sql.append(qualified_lake_table_name(table).as_str());
    sql.append(";");
    Statement::quoted(sql, "DuckLake TRUNCATE TABLE failed")
}

/// The statement that deletes by key set.
pub open spec fn key_set_delete_statement(
    table: TableNameView,
    key_set: Seq<char>,
) -> StatementView {
    sensitive_statement(
        "DELETE FROM "@ + lake_table(table) + " AS cdc_target "@ + key_set,
        "DuckLake key-set delete failed"@,
        None,
    )
}

/// Builds the statement that deletes by key set.
pub fn build_key_set_delete_statement(table: &DuckLakeTableName, key_set: &str) -> (r: Statement)
    ensures
        r@ == key_set_delete_statement(table@, key_set@),
{
    let mut sql = "DELETE FROM ".to_owned();
    sql.append(qualified_lake_table_name(table).as_str());
    sql.append(" AS cdc_target ");
    sql.append(key_set);
    Statement {
        sql,
        failure: "DuckLake key-set delete failed".to_owned(),
        detail: None,
        sensitive: true,
    }
}

/// Maximum predicates of one delete statement.
pub const SQL_DELETE_BATCH_SIZE: usize = 16;

/// The number of statements that `count` items need, at most `size` each.
pub open spec fn chunk_count_of(count: nat, size: nat) -> nat {
    ((count + size - 1) / size as int) as nat
}

/// Items `index * size` up to `size` more of them.
pub open spec fn chunk_of<A>(items: Seq<A>, index: nat, size: nat) -> Seq<A> {
    items.subrange(
        (index * size) as int,
        if (index + 1) * size <= items.len() {
            ((index + 1) * size) as int
        } else {
            items.len() as int
        },
    )
}

/// The first `count` chunks of items, one after the other.
pub open spec fn chunks_joined<A>(items: Seq<A>, count: nat, size: nat) -> Seq<A>
    decreases count,
{
    if count == 0 {
        Seq::empty()
    } else {
        chunks_joined(items, (count - 1) as nat, size) + chunk_of(items, (count - 1) as nat, size)
    }
}

proof fn lemma_chunks_joined<A>(items: Seq<A>, count: nat, size: nat)
    requires
        size > 0,
        count <= chunk_count_of(items.len(), size),
    ensures
        count * size < items.len() + size,
        chunks_joined(items, count, size) == items.take(
            if count * size <= items.len() {
                (count * size) as int
            } else {
                items.len() as int
            },
        ),
    decreases count,
{
    let total = items.len() as int;
    let parts = chunk_count_of(items.len(), size) as int;
    assert(count * size < total + size) by (nonlinear_arith)
        requires
            size > 0,
            0 <= count <= parts,
            parts == (total + size - 1) / size as int,
            total >= 0,
    ;
    if count > 0 {
        lemma_chunks_joined(items, (count - 1) as nat, size);
        assert((count - 1) * size + size == count * size) by (nonlinear_arith);
        assert((count - 1) * size >= 0) by (nonlinear_arith)
            requires
                count > 0,
        ;
        assert((count - 1 + 1) * size == count * size) by (nonlinear_arith);
        let end = if count * size <= items.len() {
            (count * size) as int
        } else {
            total
        };
        assert(chunks_joined(items, count, size) =~= items.take(end));
    } else {
        assert(0 * size == 0) by (nonlinear_arith);
        assert(chunks_joined(items, count, size) =~= items.take(0));
    }
}

/// Bounded statements leave no item out and repeat none: the chunks, one after
/// the other, are the items, and each chunk holds at least one item and at most
/// `size` of them.
pub proof fn law_chunks_partition_their_items<A>(items: Seq<A>, size: nat)
    requires
        size > 0,
    ensures
        chunks_joined(items, chunk_count_of(items.len(), size), size) == items,
        forall|index: nat|
            index < chunk_count_of(items.len(), size) ==> 0 < (#[trigger] chunk_of(
                items,
                index,
                size,
            )).len() <= size,
{
    let total = items.len() as int;
    let count = chunk_count_of(items.len(), size);
    lemma_chunks_joined(items, count, size);
    assert(count * size >= total) by (nonlinear_arith)
        requires
            size > 0,
            total >= 0,
            count == (total + size - 1) / size as int,
    ;
    assert(items.take(total) =~= items);
    assert forall|index: nat| index < count implies 0 < (#[trigger] chunk_of(
        items,
        index,
        size,
    )).len() <= size by {
        lemma_chunks_joined(items, (index + 1) as nat, size);
        assert((index + 1) * size == index * size + size) by (nonlinear_arith);
        assert(index * size >= 0) by (nonlinear_arith);
    }
}

/// Predicates in round brackets.
pub open spec fn bracketed(predicates: Seq<Seq<char>>) -> Seq<Seq<char>> {
    predicates.map_values(|p: Seq<char>| "("@ + p + ")"@)
}

/// One delete statement of a chunk of predicates.
pub open spec fn delete_statement(
    table: TableNameView,
    predicates: Seq<Seq<char>>,
    index: nat,
) -> StatementView {
    let chunk = chunk_of(predicates, index, SQL_DELETE_BATCH_SIZE as nat);
    sensitive_statement(
        "DELETE FROM "@ + lake_table(table) + " WHERE "@ + joined(bracketed(chunk), " OR "@)
            + ";"@,
        "DuckLake DELETE failed"@,
        Some(
            delete_detail(
                lake_table(table),
                predicates.len(),
                index,
                chunk_count_of(predicates.len(), SQL_DELETE_BATCH_SIZE as nat),
                chunk.len(),
            ),
        ),
    )
}

/// The delete statements of predicates, a bounded number of them each.
pub open spec fn delete_statements(
    table: TableNameView,
    predicates: Seq<Seq<char>>,
) -> Seq<StatementView> {
    Seq::new(
        chunk_count_of(predicates.len(), SQL_DELETE_BATCH_SIZE as nat),
        |index: int| delete_statement(table, predicates, index as nat),
    )
}

/// Builds the delete statements of predicates.
pub fn build_delete_statements(table: &DuckLakeTableName, predicates: &Vec<String>) -> (r: Vec<
    Statement,
>)
    ensures
        statement_views(r@) == delete_statements(table@, texts(predicates@)),
{
    let target = qualified_lake_table_name(table);
    let ghost all = texts(predicates@);
    let size: usize = SQL_DELETE_BATCH_SIZE;
    let total: usize = predicates.len();
    let chunk_count: usize = total / size + if total % size == 0 {
        0
    } else {
        1
    };
    assert(chunk_count == chunk_count_of(all.len(), size as nat));
    let mut statements: Vec<Statement> = Vec::new();
    let mut start: usize = 0;
    for index in 0..chunk_count
        invariant
            all == texts(predicates@),
            total == predicates@.len(),
            size == SQL_DELETE_BATCH_SIZE,
            chunk_count == chunk_count_of(all.len(), size as nat),
            start == index * size || index == chunk_count,
            target@ == lake_table(table@),
            statements@.len() == index,
            forall|j: int|
                0 <= j < index ==> (#[trigger] statements@[j])@ == delete_statement(
                    table@,
                    all,
                    j as nat,
                ),
    {
        let end: usize = if total - start > size {
            start + size
        } else {
            total
        };
        let ghost chunk = chunk_of(all, index as nat, size as nat);
        let mut parts: Vec<String> = Vec::new();
        for i in start..end
            invariant
                all == texts(predicates@),
                total == predicates@.len(),
                start <= end <= total,
                chunk == all.subrange(start as int, end as int),
                parts@.len() == i - start,
                forall|j: int|
                    0 <= j < i - start ==> (#[trigger] parts@[j])@ == "("@ + chunk[j] + ")"@,
        {
            assert(chunk[i - start] == predicates@[i as int]@);
            let mut part = "(".to_owned();
            part.append(predicates[i].as_str());
            part.append(")");
            parts.push(part);
        }
        assert(texts(parts@) =~= bracketed(chunk));
        let mut sql = "DELETE FROM ".to_owned();
        sql.append(target.as_str());
        sql.append(" WHERE ");
        sql.append(join_texts(&parts, " OR ").as_str());
        sql.append(";");
        let detail = format_delete_mutation_error_detail(
            target.as_str(),
            total,
            index,
            chunk_count,
            end - start,
        );
        statements.push(
            Statement {
                sql,
                failure: "DuckLake DELETE failed".to_owned(),
                detail: Some(detail),
                sensitive: true,
            },
        );
        start = end;
    }
    assert(statement_views(statements@) =~= delete_statements(table@, all));
    statements
}

/// The statement that updates the rows of one identity.
pub open spec fn update_statement(
    table: TableNameView,
    assignments: Seq<Seq<char>>,
    predicate: Seq<char>,
) -> StatementView {
    sensitive_statement(
        "UPDATE "@ + lake_table(table) + " SET "@ + joined(assignments, ", "@) + " WHERE "@
            + predicate + ";"@,
        "DuckLake UPDATE failed"@,
        Some(update_detail(lake_table(table), assignments.len(), predicate.len() > 0)),
    )
}

/// Builds the statement that updates the rows of one identity.
pub fn build_update_statement(
    table: &DuckLakeTableName,
    assignments: &Vec<String>,
    predicate: &str,
) -> (r: Statement)
    ensures
        r@ == update_statement(table@, texts(assignments@), predicate@),
{
    let target = qualified_lake_table_name(table);
    let mut sql = "UPDATE ".to_owned();
    sql.append(target.as_str());
    sql.append(" SET ");
    sql.append(join_texts(assignments, ", ").as_str());
    sql.append(" WHERE ");
    sql.append(predicate);
    sql.append(";");
    let detail = format_update_mutation_error_detail(
        target.as_str(),
        assignments.len(),
        predicate.unicode_len() > 0,
    );
    Statement {
        sql,
        failure: "DuckLake UPDATE failed".to_owned(),
        detail: Some(detail),
        sensitive: true,
    }
}

/// The statement that records an applied batch.
pub open spec fn marker_statement(
    table: TableNameView,
    replay_epoch: Seq<char>,
    batch_id: Seq<char>,
    marker: PreparedDuckLakeBatchMarker,
) -> StatementView {
    quoted_statement(
        "INSERT INTO "@ + helper_table(APPLIED_BATCHES_TABLE@)
            + "\n         (table_name, replay_epoch, batch_id, batch_kind, first_start_lsn, last_commit_lsn, applied_at)\n         VALUES ("@
            + literal_text(table_id(table)) + ", "@ + literal_text(replay_epoch) + ", "@
            + literal_text(batch_id) + ", "@ + literal_text(marker.batch_kind.label()) + ", "@
            + lsn_literal(marker.first_start_lsn) + ", "@ + lsn_literal(marker.last_commit_lsn)
            + ", current_timestamp);"@,
        "DuckLake batch marker insert failed"@,
    )
}

/// Builds the statement that records an applied batch.
pub fn build_marker_statement(
    table: &DuckLakeTableName,
    replay_epoch: &str,
    batch_id: &str,
    marker: PreparedDuckLakeBatchMarker,
) -> (r: Statement)
    ensures
        r@ == marker_statement(table@, replay_epoch@, batch_id@, marker),
{
    let mut sql = "INSERT INTO ".to_owned();
    sql.append(helper_table_name(APPLIED_BATCHES_TABLE).as_str());
    sql.append(
        "\n         (table_name, replay_epoch, batch_id, batch_kind, first_start_lsn, last_commit_lsn, applied_at)\n         VALUES (",
    );
    sql.append(quote_literal(table.id().as_str()).as_str());
    sql.append(", ");
    sql.append(quote_literal(replay_epoch).as_str());
    sql.append(", ");
    sql.append(quote_literal(batch_id).as_str());
    sql.append(", ");
    sql.append(quote_literal(marker.batch_kind.as_str()).as_str());
    sql.append(", ");
    sql.append(optional_lsn_to_sql_literal(marker.first_start_lsn).as_str());
    sql.append(", ");
    sql.append(optional_lsn_to_sql_literal(marker.last_commit_lsn).as_str());
    sql.append(", current_timestamp);");
    Statement::quoted(sql, "DuckLake batch marker insert failed")
}

/// The statement that appends a table's streaming watermark to one progress
/// table.
pub open spec fn progress_statement(
    progress_table: Seq<char>,
    table: TableNameView,
    replay_epoch: Seq<char>,
    key: EventSequenceKey,
) -> StatementView {
    quoted_statement(
        "INSERT INTO "@ + helper_table(progress_table)
            + "\n         (table_name, replay_epoch, last_commit_lsn, last_tx_ordinal, updated_at)\n         VALUES ("@
            + literal_text(table_id(table)) + ", "@ + literal_text(replay_epoch) + ", "@ + decimal(
            key.commit_lsn.0 as nat,
        ) + ", "@ + decimal(key.tx_ordinal as nat) + ", current_timestamp);"@,
        "DuckLake streaming progress update failed"@,
    )
}

/// Builds the statement that appends a table's streaming watermark to one
/// progress table.
pub fn build_progress_statement(
    progress_table: &str,
    table: &DuckLakeTableName,
    replay_epoch: &str,
    key: EventSequenceKey,
) -> (r: Statement)
    ensures
        r@ == progress_statement(progress_table@, table@, replay_epoch@, key),
{
    let mut sql = "INSERT INTO ".to_owned();
    sql.append(helper_table_name(progress_table).as_str());
    sql.append(
        "\n         (table_name, replay_epoch, last_commit_lsn, last_tx_ordinal, updated_at)\n         VALUES (",
    );
    sql.append(quote_literal(table.id().as_str()).as_str());
    sql.append(", ");
    sql.append(quote_literal(replay_epoch).as_str());
    sql.append(", ");
    sql.append(decimal_u64(key.commit_lsn.0).as_str());
    sql.append(", ");
    sql.append(decimal_u64(key.tx_ordinal).as_str());
    sql.append(", current_timestamp);");
    Statement::quoted(sql, "DuckLake streaming progress update failed")
}

/// The statements that advance a table's streaming watermark: one for each
/// progress table that the pipeline writes.
pub open spec fn progress_statements(
    progress: Seq<char>,
    table: TableNameView,
    replay_epoch: Seq<char>,
    key: EventSequenceKey,
) -> Seq<StatementView> {
    written_names(progress).map_values(
        |name: Seq<char>| progress_statement(name, table, replay_epoch, key),
    )
}

/// Builds the statements that advance a table's streaming watermark.
pub fn build_progress_statements(
    progress: &StreamingProgressTable,
    table: &DuckLakeTableName,
    replay_epoch: &str,
    key: EventSequenceKey,
) -> (r: Vec<Statement>)
    ensures
        statement_views(r@) == written_names(progress@).map_values(
            |name: Seq<char>| progress_statement(name, table@, replay_epoch@, key),
        ),
        statement_views(r@) == progress_statements(progress@, table@, replay_epoch@, key),
{
    let tables = progress.written_tables();
    let ghost names = written_names(progress@);
    let mut statements: Vec<Statement> = Vec::new();
    for i in 0..tables.len()
        invariant
            names == written_names(progress@),
            tables@.len() == names.len(),
            forall|j: int| 0 <= j < tables@.len() ==> (#[trigger] tables@[j])@ == names[j],
            statements@.len() == i,
            forall|j: int|
                0 <= j < i ==> (#[trigger] statements@[j])@ == progress_statement(
                    names[j],
                    table@,
                    replay_epoch@,
                    key,
                ),
    {
        statements.push(build_progress_statement(tables[i], table, replay_epoch, key));
    }
    assert(statement_views(statements@) =~= progress_statements(
        progress@,
        table@,
        replay_epoch@,
        key,
    ));
    statements
}

/// The query that finds the marker of one batch.
pub open spec fn marker_query(
    table: TableNameView,
    replay_epoch: Seq<char>,
    batch_id: Seq<char>,
) -> StatementView {
    quoted_statement(
        "SELECT 1 FROM "@ + helper_table(APPLIED_BATCHES_TABLE@) + "\n         WHERE table_name = "@
            + literal_text(table_id(table)) + "\n           AND COALESCE("@ + REPLAY_EPOCH_COLUMN@ + ", "@
            + literal_text(LEGACY_REPLAY_EPOCH@) + ") = "@ + literal_text(replay_epoch)
            + "\n           AND batch_id = "@ + literal_text(batch_id) + "\n         LIMIT 1;"@,
        "DuckLake marker query failed"@,
    )
}

/// Builds the query that finds the marker of one batch. A row without a replay
/// epoch belongs to the legacy epoch.
pub fn build_marker_query(table: &DuckLakeTableName, replay_epoch: &str, batch_id: &str) -> (r:
    Statement)
    ensures
        r@ == marker_query(table@, replay_epoch@, batch_id@),
{
    let mut sql = "SELECT 1 FROM ".to_owned();
    sql.append(helper_table_name(APPLIED_BATCHES_TABLE).as_str());
    sql.append("\n         WHERE table_name = ");
    sql.append(quote_literal(table.id().as_str()).as_str());
    sql.append("\n           AND COALESCE(");
    sql.append(REPLAY_EPOCH_COLUMN);
    sql.append(", ");
    sql.append(quote_literal(LEGACY_REPLAY_EPOCH).as_str());
    sql.append(") = ");
    sql.append(quote_literal(replay_epoch).as_str());
    sql.append("\n           AND batch_id = ");
    sql.append(quote_literal(batch_id).as_str());
    sql.append("\n         LIMIT 1;");
    Statement::quoted(sql, "DuckLake marker query failed")
}

/// The query that reads a table's streaming watermark from one progress table.
pub open spec fn progress_query(
    progress_table: Seq<char>,
    table: TableNameView,
    replay_epoch: Seq<char>,
) -> StatementView {
    quoted_statement(
        "SELECT last_commit_lsn, last_tx_ordinal\n         FROM "@ + helper_table(progress_table)
            + "\n         WHERE table_name = "@ + literal_text(table_id(table)) + " AND COALESCE("@
            + REPLAY_EPOCH_COLUMN@ + ", "@ + literal_text(LEGACY_REPLAY_EPOCH@) + ") = "@
            + literal_text(replay_epoch)
            + "\n         ORDER BY last_commit_lsn DESC, last_tx_ordinal DESC\n         LIMIT 1;"@,
        "DuckLake streaming progress query failed"@,
    )
}

/// Builds the query that reads a table's streaming watermark from one progress
/// table. A row without a replay epoch belongs to the legacy epoch.
pub fn build_progress_query(
    progress_table: &str,
    table: &DuckLakeTableName,
    replay_epoch: &str,
) -> (r: Statement)
    ensures
        r@ == progress_query(progress_table@, table@, replay_epoch@),
{
    let mut sql = "SELECT last_commit_lsn, last_tx_ordinal\n         FROM ".to_owned();
    sql.append(helper_table_name(progress_table).as_str());
    sql.append("\n         WHERE table_name = ");
    sql.append(quote_literal(table.id().as_str()).as_str());
    sql.append(" AND COALESCE(");
    sql.append(REPLAY_EPOCH_COLUMN);
    sql.append(", ");
    sql.append(quote_literal(LEGACY_REPLAY_EPOCH).as_str());
    sql.append(") = ");
    sql.append(quote_literal(replay_epoch).as_str());
    sql.append("\n         ORDER BY last_commit_lsn DESC, last_tx_ordinal DESC\n         LIMIT 1;");
    Statement::quoted(sql, "DuckLake streaming progress query failed")
}

/// The queries that read a table's streaming watermark: one for each progress
/// table that the pipeline writes.
pub open spec fn progress_queries(
    progress: Seq<char>,
    table: TableNameView,
    replay_epoch: Seq<char>,
) -> Seq<StatementView> {
    written_names(progress).map_values(
        |name: Seq<char>| progress_query(name, table, replay_epoch),
    )
}

/// Builds the queries that read a table's streaming watermark.
pub fn build_progress_queries(
    progress: &StreamingProgressTable,
    table: &DuckLakeTableName,
    replay_epoch: &str,
) -> (r: Vec<Statement>)
    ensures
        statement_views(r@) == progress_queries(progress@, table@, replay_epoch@),
{
    let tables = progress.written_tables();
    let ghost names = written_names(progress@);
    let mut queries: Vec<Statement> = Vec::new();
    for i in 0..tables.len()
        invariant
            names == written_names(progress@),
            tables@.len() == names.len(),
            forall|j: int| 0 <= j < tables@.len() ==> (#[trigger] tables@[j])@ == names[j],
            queries@.len() == i,
            forall|j: int|
                0 <= j < i ==> (#[trigger] queries@[j])@ == progress_query(
                    names[j],
                    table@,
                    replay_epoch@,
                ),
    {
        queries.push(build_progress_query(tables[i], table, replay_epoch));
    }
    assert(statement_views(queries@) =~= progress_queries(progress@, table@, replay_epoch@));
    queries
}

/// Where a query failed.
#[derive(Clone, Copy, Debug, PartialEq, Eq, Structural)]
pub enum QueryStage {
    Prepare,
    Query,
    Fetch,
    /// Reading the column of that index.
    Column(usize),
}

/// The description of a failed marker query.
pub open spec fn marker_query_failure(stage: QueryStage) -> Seq<char> {
    match stage {
        QueryStage::Prepare => "DuckLake marker query prepare failed"@,
        QueryStage::Query => "DuckLake marker query failed"@,
        _ => "DuckLake marker query row fetch failed"@,
    }
}

/// Returns the description of a failed marker query.
pub fn marker_query_failure_description(stage: QueryStage) -> (r: &'static str)
    ensures
        r@ == marker_query_failure(stage),
{
    match stage {
        QueryStage::Prepare => "DuckLake marker query prepare failed",
        QueryStage::Query => "DuckLake marker query failed",
        _ => "DuckLake marker query row fetch failed",
    }
}

/// The description of a failed watermark query.
pub open spec fn progress_query_failure(stage: QueryStage) -> Seq<char> {
    match stage {
        QueryStage::Prepare => "DuckLake streaming progress query prepare failed"@,
        QueryStage::Query => "DuckLake streaming progress query failed"@,
        QueryStage::Fetch => "DuckLake streaming progress row fetch failed"@,
        QueryStage::Column(index) => if index == 0 {
            "DuckLake streaming progress commit lsn read failed"@
        } else {
            "DuckLake streaming progress tx ordinal read failed"@
        },
    }
}

/// Returns the description of a failed watermark query.
pub fn progress_query_failure_description(stage: QueryStage) -> (r: &'static str)
    ensures
        r@ == progress_query_failure(stage),
{
    match stage {
        QueryStage::Prepare => "DuckLake streaming progress query prepare failed",
        QueryStage::Query => "DuckLake streaming progress query failed",
        QueryStage::Fetch => "DuckLake streaming progress row fetch failed",
        QueryStage::Column(index) => if index == 0 {
            "DuckLake streaming progress commit lsn read failed"
        } else {
            "DuckLake streaming progress tx ordinal read failed"
        },
    }
}

/// The statement that creates the applied-batches table.
pub open spec fn create_applied_batches_statement() -> StatementView {
    quoted_statement(
        "CREATE TABLE IF NOT EXISTS "@ + helper_table(APPLIED_BATCHES_TABLE@)
            + " (\n             table_name VARCHAR NOT NULL,\n             replay_epoch VARCHAR,\n             batch_id VARCHAR NOT NULL,\n             batch_kind VARCHAR NOT NULL,\n             first_start_lsn UBIGINT,\n             last_commit_lsn UBIGINT,\n             applied_at TIMESTAMPTZ NOT NULL\n             );"@,
        "DuckLake CREATE TABLE failed"@,
    )
}

/// The statement that creates a streaming progress table.
pub open spec fn create_streaming_progress_statement(progress_table: Seq<char>) -> StatementView {
    quoted_statement(
        "CREATE TABLE IF NOT EXISTS "@ + helper_table(progress_table)
            + " (\n             table_name VARCHAR NOT NULL,\n             replay_epoch VARCHAR,\n             last_commit_lsn UBIGINT NOT NULL,\n             last_tx_ordinal UBIGINT NOT NULL,\n             updated_at TIMESTAMPTZ NOT NULL\n             );"@,
        "DuckLake CREATE TABLE failed"@,
    )
}

/// The query that finds a column of a helper table.
pub open spec fn column_query(table: Seq<char>, column: Seq<char>) -> StatementView {
    quoted_statement(
        "SELECT 1 FROM information_schema.columns WHERE table_catalog = "@ + literal_text(
            LAKE_CATALOG@,
        ) + " AND table_name = "@ + literal_text(table) + " AND column_name = "@ + literal_text(
            column,
        ) + " LIMIT 1;"@,
        "DuckLake helper table schema lookup failed"@,
    )
}

/// The description of a failed column lookup.
pub open spec fn column_query_failure(stage: QueryStage) -> Seq<char> {
    match stage {
        QueryStage::Prepare => "DuckLake helper table schema lookup failed"@,
        QueryStage::Query => "DuckLake helper table schema lookup failed"@,
        _ => "DuckLake helper table schema row fetch failed"@,
    }
}

/// Returns the description of a failed column lookup.
pub fn column_query_failure_description(stage: QueryStage) -> (r: &'static str)
    ensures
        r@ == column_query_failure(stage),
{
    match stage {
        QueryStage::Prepare => "DuckLake helper table schema lookup failed",
        QueryStage::Query => "DuckLake helper table schema lookup failed",
        _ => "DuckLake helper table schema row fetch failed",
    }
}

/// The statement that adds the replay epoch column to a helper table.
pub open spec fn add_epoch_column_statement(table: Seq<char>) -> StatementView {
    quoted_statement(
        "ALTER TABLE "@ + helper_table(table) + " ADD COLUMN "@ + quoted(REPLAY_EPOCH_COLUMN@)
            + " VARCHAR;"@,
        "DuckLake helper table migration failed"@,
    )
}

/// The statement that keeps rows of a helper table inline in the catalog.
pub open spec fn inlining_statement(table: Seq<char>) -> StatementView {
    quoted_statement(
        "CALL "@ + LAKE_CATALOG@ + ".set_option('data_inlining_row_limit', "@ + decimal(
            HELPER_TABLE_DATA_INLINING_ROW_LIMIT as nat,
        ) + ", table_name => "@ + literal_text(table) + ");"@,
        "DuckLake set_option failed"@,
    )
}

/// The helper tables of replay bookkeeping.
#[derive(Debug, PartialEq)]
pub enum HelperTable {
    AppliedBatches,
    /// A progress table: the shared one, or a pipeline's own.
    StreamingProgress(StreamingProgressTable),
}

impl HelperTable {
    /// The unquoted name of the table.
    pub open spec fn name(&self) -> Seq<char> {
        match self {
            HelperTable::AppliedBatches => APPLIED_BATCHES_TABLE@,
            HelperTable::StreamingProgress(table) => table@,
        }
    }

    /// Returns the unquoted name of the table.
    pub fn as_str(&self) -> (r: &str)
        ensures
            r@ == self.name(),
    {
        match self {
            HelperTable::AppliedBatches => APPLIED_BATCHES_TABLE,
            HelperTable::StreamingProgress(table) => table.name(),
        }
    }

    /// The statement that creates the table.
    pub open spec fn creation(&self) -> StatementView {
        match self {
            HelperTable::AppliedBatches => create_applied_batches_statement(),
            HelperTable::StreamingProgress(table) => create_streaming_progress_statement(table@),
        }
    }
}

fn build_creation(table: &HelperTable) -> (r: Statement)
    ensures
        r@ == table.creation(),
{
    let mut sql = "CREATE TABLE IF NOT EXISTS ".to_owned();
    match table {
        HelperTable::AppliedBatches => {
            sql.append(helper_table_name(APPLIED_BATCHES_TABLE).as_str());
            sql.append(
                " (\n             table_name VARCHAR NOT NULL,\n             replay_epoch VARCHAR,\n             batch_id VARCHAR NOT NULL,\n             batch_kind VARCHAR NOT NULL,\n             first_start_lsn UBIGINT,\n             last_commit_lsn UBIGINT,\n             applied_at TIMESTAMPTZ NOT NULL\n             );",
            );
        },
        HelperTable::StreamingProgress(progress) => {
            sql.append(helper_table_name(progress.name()).as_str());
            sql.append(
                " (\n             table_name VARCHAR NOT NULL,\n             replay_epoch VARCHAR,\n             last_commit_lsn UBIGINT NOT NULL,\n             last_tx_ordinal UBIGINT NOT NULL,\n             updated_at TIMESTAMPTZ NOT NULL\n             );",
            );
        },
    }
    Statement::quoted(sql, "DuckLake CREATE TABLE failed")
}

/// Returns the helper tables of a pipeline's streaming progress: one for each
/// progress table that it writes.
pub fn progress_helper_tables(progress: &StreamingProgressTable) -> (r: Vec<HelperTable>)
    ensures
        r@.len() == written_names(progress@).len(),
        forall|i: int|
            0 <= i < r@.len() ==> (#[trigger] r@[i]) is StreamingProgress && r@[i].name()
                == written_names(progress@)[i],
{
    let mut tables: Vec<HelperTable> = Vec::new();
    tables.push(HelperTable::StreamingProgress(progress.clone()));
    if progress.legacy().is_some() {
        tables.push(HelperTable::StreamingProgress(StreamingProgressTable::default()));
    }
    tables
}

/// Builds the query that finds a column of a helper table.
pub fn build_column_query(table: &str, column: &str) -> (r: Statement)
    ensures
        r@ == column_query(table@, column@),
{
    let mut sql = "SELECT 1 FROM information_schema.columns WHERE table_catalog = ".to_owned();
    sql.append(quote_literal(LAKE_CATALOG).as_str());
    sql.append(" AND table_name = ");
    sql.append(quote_literal(table).as_str());
    sql.append(" AND column_name = ");
    sql.append(quote_literal(column).as_str());
    sql.append(" LIMIT 1;");
    Statement::quoted(sql, "DuckLake helper table schema lookup failed")
}

fn build_add_epoch_column(table: &str) -> (r: Statement)
    ensures
        r@ == add_epoch_column_statement(table@),
{
    let mut sql = "ALTER TABLE ".to_owned();
    sql.append(helper_table_name(table).as_str());
    sql.append(" ADD COLUMN ");
    sql.append(quote_identifier(REPLAY_EPOCH_COLUMN).as_str());
    sql.append(" VARCHAR;");
    Statement::quoted(sql, "DuckLake helper table migration failed")
}

fn build_inlining(table: &str) -> (r: Statement)
    ensures
        r@ == inlining_statement(table@),
{
    let mut sql = "CALL ".to_owned();
    sql.append(LAKE_CATALOG);
    sql.append(".set_option('data_inlining_row_limit', ");
    sql.append(decimal_u64(HELPER_TABLE_DATA_INLINING_ROW_LIMIT).as_str());
    sql.append(", table_name => ");
    sql.append(quote_literal(table).as_str());
    sql.append(");");
    Statement::quoted(sql, "DuckLake set_option failed")
}

/// What ensuring a helper table does next.
#[derive(Clone, Copy, Debug, PartialEq, Eq, Structural)]
pub enum HelperTableStep {
    /// Create the table. Losing the race to another creation counts as success.
    Create,
    /// Look for the replay epoch column.
    FindEpochColumn,
    /// Add the replay epoch column to a table of an older version.
    AddEpochColumn,
    /// Keep the table's rows inline.
    SetInlining,
    /// The table is ready.
    Done,
}

/// The step after one that succeeded. `found` is the outcome of the column
/// lookup.
pub open spec fn next_helper_step(step: HelperTableStep, found: bool) -> HelperTableStep {
    match step {
        HelperTableStep::Create => HelperTableStep::FindEpochColumn,
        HelperTableStep::FindEpochColumn => if found {
            HelperTableStep::SetInlining
        } else {
            HelperTableStep::AddEpochColumn
        },
        HelperTableStep::AddEpochColumn => HelperTableStep::SetInlining,
        HelperTableStep::SetInlining => HelperTableStep::Done,
        HelperTableStep::Done => HelperTableStep::Done,
    }
}

/// Returns the step that ensuring a helper table starts with: nothing is left
/// to do once the table is known to exist.
pub fn first_helper_table_step(created: bool) -> (r: HelperTableStep)
    ensures
        r == if created {
            HelperTableStep::Done
        } else {
            HelperTableStep::Create
        },
{
    if created {
        HelperTableStep::Done
    } else {
        HelperTableStep::Create
    }
}

/// Returns the step after one that succeeded.
pub fn advance_helper_table_step(step: HelperTableStep, found: bool) -> (r: HelperTableStep)
    ensures
        r == next_helper_step(step, found),
{
    match step {
        HelperTableStep::Create => HelperTableStep::FindEpochColumn,
        HelperTableStep::FindEpochColumn => if found {
            HelperTableStep::SetInlining
        } else {
            HelperTableStep::AddEpochColumn
        },
        HelperTableStep::AddEpochColumn => HelperTableStep::SetInlining,
        HelperTableStep::SetInlining => HelperTableStep::Done,
        HelperTableStep::Done => HelperTableStep::Done,
    }
}

/// The statement of a step.
pub open spec fn helper_statement(table: &HelperTable, step: HelperTableStep) -> Option<
    StatementView,
> {
    match step {
        HelperTableStep::Create => Some(table.creation()),
        HelperTableStep::FindEpochColumn => Some(column_query(table.name(), REPLAY_EPOCH_COLUMN@)),
        HelperTableStep::AddEpochColumn => Some(add_epoch_column_statement(table.name())),
        HelperTableStep::SetInlining => Some(inlining_statement(table.name())),
        HelperTableStep::Done => None,
    }
}

/// Returns the statement of a step.
pub fn helper_table_statement(table: &HelperTable, step: HelperTableStep) -> (r: Option<Statement>)
    ensures
        match r {
            Some(statement) => helper_statement(table, step) == Some(statement@),
            None => helper_statement(table, step) is None,
        },
{
    match step {
        HelperTableStep::Create => Some(build_creation(table)),
        HelperTableStep::FindEpochColumn => Some(
            build_column_query(table.as_str(), REPLAY_EPOCH_COLUMN),
        ),
        HelperTableStep::AddEpochColumn => Some(build_add_epoch_column(table.as_str())),
        HelperTableStep::SetInlining => Some(build_inlining(table.as_str())),
        HelperTableStep::Done => None,
    }
}

/// What stands in a log position's place.
pub open spec fn lsn_meaning(lsn: Option<PgLsn>) -> Meaning {
    match lsn {
        None => Meaning::Null,
        Some(lsn) => Meaning::Number(lsn.0 as int),
    }
}

proof fn lemma_lsn_is_one_item(lsn: Option<PgLsn>)
    ensures
        one_item(lsn_literal(lsn)),
        meaning(lsn_literal(lsn)) == Some(lsn_meaning(lsn)),
{
    law_lsn_literal_reads_back(lsn);
    match lsn {
        None => law_number_is_one_item(0),
        Some(lsn) => {
            law_number_is_one_item(lsn.0 as int);
            assert(decimal_int(lsn.0 as int) == decimal(lsn.0 as nat));
        },
    }
}

/// The statement that marks a batch inserts one row into the marker table, which reads
/// back as the table, the epoch, the id of the batch, the label of its kind and its two
/// log positions, with an absent value for none.
pub proof fn law_marker_statement_reads_back(
    table: DuckLakeTableName,
    replay_epoch: Seq<char>,
    batch_id: Seq<char>,
    marker: PreparedDuckLakeBatchMarker,
)
    ensures
        ({
            let values = inside(
                marker_statement(table@, replay_epoch, batch_id, marker).sql,
                "INSERT INTO lake.\"__etl_applied_table_batches\"\n         (table_name, replay_epoch, batch_id, batch_kind, first_start_lsn, last_commit_lsn, applied_at)\n         VALUES ("@,
                ", current_timestamp);"@,
            );
            &&& values is Some
            &&& meanings(values->0) == seq![
                Some(Meaning::Text(table.schema@ + "."@ + table.table@)),
                Some(Meaning::Text(replay_epoch)),
                Some(Meaning::Text(batch_id)),
                Some(Meaning::Text(marker.batch_kind.label())),
                Some(lsn_meaning(marker.first_start_lsn)),
                Some(lsn_meaning(marker.last_commit_lsn)),
            ]
        }),
{
    let sql = marker_statement(table@, replay_epoch, batch_id, marker).sql;
    let lead =
        "INSERT INTO lake.\"__etl_applied_table_batches\"\n         (table_name, replay_epoch, batch_id, batch_kind, first_start_lsn, last_commit_lsn, applied_at)\n         VALUES ("@;
    let tail = ", current_timestamp);"@;
    let a = literal_text(table_id(table@));
    let b = literal_text(replay_epoch);
    let c = literal_text(batch_id);
    let d = literal_text(marker.batch_kind.label());
    let e = lsn_literal(marker.first_start_lsn);
    let f = lsn_literal(marker.last_commit_lsn);
    law_text_literal_is_one_item(table_id(table@));
    law_text_literal_is_one_item(replay_epoch);
    law_text_literal_is_one_item(batch_id);
    law_text_literal_is_one_item(marker.batch_kind.label());
    lemma_lsn_is_one_item(marker.first_start_lsn);
    lemma_lsn_is_one_item(marker.last_commit_lsn);
    let parts = seq![a, b, c, d, e, f];
    lemma_joined_six(a, b, c, d, e, f);
    assert forall|k: int| 0 <= k < parts.len() implies one_item(#[trigger] parts[k]) by {}
    law_joined_items_read_back(parts, ", "@);
    lemma_marker_lead();
    let two = a + ", "@ + b;
    let three = two + ", "@ + c;
    let four = three + ", "@ + d;
    let five = four + ", "@ + e;
    lemma_regrouped(lead, a, ", "@, b);
    lemma_regrouped(lead, two, ", "@, c);
    lemma_regrouped(lead, three, ", "@, d);
    lemma_regrouped(lead, four, ", "@, e);
    lemma_regrouped(lead, five, ", "@, f);
    assert(sql == lead + joined(parts, ", "@) + tail);
    lemma_inside(lead, joined(parts, ", "@), tail);
    assert(meanings(joined(parts, ", "@)) =~= seq![
        Some(Meaning::Text(table_id(table@))),
        Some(Meaning::Text(replay_epoch)),
        Some(Meaning::Text(batch_id)),
        Some(Meaning::Text(marker.batch_kind.label())),
        Some(lsn_meaning(marker.first_start_lsn)),
        Some(lsn_meaning(marker.last_commit_lsn)),
    ]);
}

proof fn lemma_regrouped(lead: Seq<char>, body: Seq<char>, separator: Seq<char>, next: Seq<char>)
    ensures
        lead + body + separator + next == lead + (body + separator + next),
{
    assert(lead + body + separator + next =~= lead + (body + separator + next));
}

proof fn lemma_marker_lead()
    ensures
        "INSERT INTO "@ + helper_table(APPLIED_BATCHES_TABLE@)
            + "\n         (table_name, replay_epoch, batch_id, batch_kind, first_start_lsn, last_commit_lsn, applied_at)\n         VALUES ("@
            == "INSERT INTO lake.\"__etl_applied_table_batches\"\n         (table_name, replay_epoch, batch_id, batch_kind, first_start_lsn, last_commit_lsn, applied_at)\n         VALUES ("@,
{
    reveal_strlit("INSERT INTO ");
    reveal_strlit("lake");
    reveal_strlit(".\"");
    reveal_strlit("\"");
    reveal_strlit("__etl_applied_table_batches");
    reveal_strlit(
        "\n         (table_name, replay_epoch, batch_id, batch_kind, first_start_lsn, last_commit_lsn, applied_at)\n         VALUES (",
    );
    reveal_strlit(
        "INSERT INTO lake.\"__etl_applied_table_batches\"\n         (table_name, replay_epoch, batch_id, batch_kind, first_start_lsn, last_commit_lsn, applied_at)\n         VALUES (",
    );
    assert("INSERT INTO "@ + helper_table(APPLIED_BATCHES_TABLE@)
        + "\n         (table_name, replay_epoch, batch_id, batch_kind, first_start_lsn, last_commit_lsn, applied_at)\n         VALUES ("@
        =~= "INSERT INTO lake.\"__etl_applied_table_batches\"\n         (table_name, replay_epoch, batch_id, batch_kind, first_start_lsn, last_commit_lsn, applied_at)\n         VALUES ("@);
}

proof fn lemma_joined_four(a: Seq<char>, b: Seq<char>, c: Seq<char>, d: Seq<char>)
    ensures
        joined(seq![a, b, c, d], ", "@) == a + ", "@ + b + ", "@ + c + ", "@ + d,
{
    let four = seq![a, b, c, d];
    let three = seq![a, b, c];
    let two = seq![a, b];
    assert(four.drop_last() =~= three);
    assert(three.drop_last() =~= two);
    assert(two.drop_last() =~= seq![a]);
    assert(joined(seq![a], ", "@) == a);
    assert(joined(two, ", "@) == a + ", "@ + b);
    assert(joined(three, ", "@) == a + ", "@ + b + ", "@ + c);
}

proof fn lemma_joined_six(
    a: Seq<char>,
    b: Seq<char>,
    c: Seq<char>,
    d: Seq<char>,
    e: Seq<char>,
    f: Seq<char>,
)
    ensures
        joined(seq![a, b, c, d, e, f], ", "@) == a + ", "@ + b + ", "@ + c + ", "@ + d + ", "@ + e
            + ", "@ + f,
{
    let six = seq![a, b, c, d, e, f];
    let five = seq![a, b, c, d, e];
    lemma_joined_four(a, b, c, d);
    assert(six.drop_last() =~= five);
    assert(five.drop_last() =~= seq![a, b, c, d]);
    assert(joined(five, ", "@) == joined(seq![a, b, c, d], ", "@) + ", "@ + e);
}

/// The statement that records progress inserts one row into the named progress table,
/// which reads back as the table, the epoch and the position's commit and ordinal.
pub proof fn law_progress_statement_reads_back(
    progress_table: Seq<char>,
    table: DuckLakeTableName,
    replay_epoch: Seq<char>,
    key: EventSequenceKey,
)
    ensures
        ({
            let values = inside(
                progress_statement(progress_table, table@, replay_epoch, key).sql,
                "INSERT INTO lake.\""@ + progress_table
                    + "\"\n         (table_name, replay_epoch, last_commit_lsn, last_tx_ordinal, updated_at)\n         VALUES ("@,
                ", current_timestamp);"@,
            );
            &&& values is Some
            &&& meanings(values->0) == seq![
                Some(Meaning::Text(table.schema@ + "."@ + table.table@)),
                Some(Meaning::Text(replay_epoch)),
                Some(Meaning::Number(key.commit_lsn.0 as int)),
                Some(Meaning::Number(key.tx_ordinal as int)),
            ]
        }),
{
    let sql = progress_statement(progress_table, table@, replay_epoch, key).sql;
    let lead = "INSERT INTO lake.\""@ + progress_table
        + "\"\n         (table_name, replay_epoch, last_commit_lsn, last_tx_ordinal, updated_at)\n         VALUES ("@;
    let tail = ", current_timestamp);"@;
    let a = literal_text(table_id(table@));
    let b = literal_text(replay_epoch);
    let c = decimal(key.commit_lsn.0 as nat);
    let d = decimal(key.tx_ordinal as nat);
    law_text_literal_is_one_item(table_id(table@));
    law_text_literal_is_one_item(replay_epoch);
    law_number_is_one_item(key.commit_lsn.0 as int);
    law_number_is_one_item(key.tx_ordinal as int);
    law_number_literal_reads_back(key.commit_lsn.0 as int);
    law_number_literal_reads_back(key.tx_ordinal as int);
    assert(decimal_int(key.commit_lsn.0 as int) == c);
    assert(decimal_int(key.tx_ordinal as int) == d);
    let parts = seq![a, b, c, d];
    lemma_joined_four(a, b, c, d);
    assert forall|k: int| 0 <= k < parts.len() implies one_item(#[trigger] parts[k]) by {}
    law_joined_items_read_back(parts, ", "@);
    reveal_strlit("INSERT INTO ");
    reveal_strlit("lake");
    reveal_strlit(".\"");
    reveal_strlit("\"");
    reveal_strlit("INSERT INTO lake.\"");
    reveal_strlit(
        "\n         (table_name, replay_epoch, last_commit_lsn, last_tx_ordinal, updated_at)\n         VALUES (",
    );
    reveal_strlit(
        "\"\n         (table_name, replay_epoch, last_commit_lsn, last_tx_ordinal, updated_at)\n         VALUES (",
    );
    assert("INSERT INTO "@ + helper_table(progress_table)
        + "\n         (table_name, replay_epoch, last_commit_lsn, last_tx_ordinal, updated_at)\n         VALUES ("@
        =~= lead);
    let two = a + ", "@ + b;
    let three = two + ", "@ + c;
    lemma_regrouped(lead, a, ", "@, b);
    lemma_regrouped(lead, two, ", "@, c);
    lemma_regrouped(lead, three, ", "@, d);
    assert(sql == lead + joined(parts, ", "@) + tail);
    lemma_inside(lead, joined(parts, ", "@), tail);
    assert(meanings(joined(parts, ", "@)) =~= seq![
        Some(Meaning::Text(table_id(table@))),
        Some(Meaning::Text(replay_epoch)),
        Some(Meaning::Number(key.commit_lsn.0 as int)),
        Some(Meaning::Number(key.tx_ordinal as int)),
    ]);
}

/// The query for a marker asks for the table, the epoch and the id of the batch, each by
/// a literal that stands for it, and takes a row without an epoch for one of the legacy
/// epoch.
pub proof fn law_marker_query_asks_for_the_batch(
    table: DuckLakeTableName,
    replay_epoch: Seq<char>,
    batch_id: Seq<char>,
)
    ensures
        exists|named: Seq<char>, legacy: Seq<char>, epoch: Seq<char>, id: Seq<char>|
            #![trigger meaning(named), meaning(legacy), meaning(epoch), meaning(id)]
            {
                &&& marker_query(table@, replay_epoch, batch_id).sql == "SELECT 1 FROM "@ + "lake"@
                    + ".\""@ + "__etl_applied_table_batches"@ + "\""@
                    + "\n         WHERE table_name = "@ + named + "\n           AND COALESCE("@
                    + "replay_epoch"@ + ", "@ + legacy + ") = "@ + epoch
                    + "\n           AND batch_id = "@ + id + "\n         LIMIT 1;"@
                &&& meaning(named) == Some(Meaning::Text(table.schema@ + "."@ + table.table@))
                &&& meaning(legacy) == Some(Meaning::Text("legacy"@))
                &&& meaning(epoch) == Some(Meaning::Text(replay_epoch))
                &&& meaning(id) == Some(Meaning::Text(batch_id))
            },
{
    let named = literal_text(table_id(table@));
    let legacy = literal_text("legacy"@);
    let epoch = literal_text(replay_epoch);
    let id = literal_text(batch_id);
    law_text_literal_is_one_item(table_id(table@));
    law_text_literal_is_one_item("legacy"@);
    law_text_literal_is_one_item(replay_epoch);
    law_text_literal_is_one_item(batch_id);
    assert(marker_query(table@, replay_epoch, batch_id).sql =~= "SELECT 1 FROM "@ + "lake"@
        + ".\""@ + "__etl_applied_table_batches"@ + "\""@ + "\n         WHERE table_name = "@
        + named + "\n           AND COALESCE("@ + "replay_epoch"@ + ", "@ + legacy + ") = "@
        + epoch + "\n           AND batch_id = "@ + id + "\n         LIMIT 1;"@);
    assert(meaning(named) is Some && meaning(legacy) is Some && meaning(epoch) is Some && meaning(
        id,
    ) is Some);
}

/// The query for progress asks the named progress table for the table and the epoch,
/// each by a literal that stands for it, takes a row without an epoch for one of the
/// legacy epoch, and takes the greatest position first.
pub proof fn law_progress_query_asks_for_the_latest(
    progress_table: Seq<char>,
    table: DuckLakeTableName,
    replay_epoch: Seq<char>,
)
    ensures
        exists|named: Seq<char>, legacy: Seq<char>, epoch: Seq<char>|
            #![trigger meaning(named), meaning(legacy), meaning(epoch)]
            {
                &&& progress_query(progress_table, table@, replay_epoch).sql
                    == "SELECT last_commit_lsn, last_tx_ordinal\n         FROM "@ + "lake"@
                    + ".\""@ + progress_table + "\""@ + "\n         WHERE table_name = "@ + named
                    + " AND COALESCE("@ + "replay_epoch"@ + ", "@ + legacy + ") = "@ + epoch
                    + "\n         ORDER BY last_commit_lsn DESC, last_tx_ordinal DESC\n         LIMIT 1;"@
                &&& meaning(named) == Some(Meaning::Text(table.schema@ + "."@ + table.table@))
                &&& meaning(legacy) == Some(Meaning::Text("legacy"@))
                &&& meaning(epoch) == Some(Meaning::Text(replay_epoch))
            },
{
    let named = literal_text(table_id(table@));
    let legacy = literal_text("legacy"@);
    let epoch = literal_text(replay_epoch);
    law_text_literal_is_one_item(table_id(table@));
    law_text_literal_is_one_item("legacy"@);
    law_text_literal_is_one_item(replay_epoch);
    assert(progress_query(progress_table, table@, replay_epoch).sql
        =~= "SELECT last_commit_lsn, last_tx_ordinal\n         FROM "@ + "lake"@ + ".\""@
        + progress_table + "\""@ + "\n         WHERE table_name = "@ + named + " AND COALESCE("@
        + "replay_epoch"@ + ", "@ + legacy + ") = "@ + epoch
        + "\n         ORDER BY last_commit_lsn DESC, last_tx_ordinal DESC\n         LIMIT 1;"@);
    assert(meaning(named) is Some && meaning(legacy) is Some && meaning(epoch) is Some);
}

/// Progress is recorded in the pipeline's own table and in the shared one, once in each,
/// and read from the same tables.
pub proof fn law_progress_goes_to_the_own_and_the_shared_table(
    progress: Seq<char>,
    table: TableNameView,
    replay_epoch: Seq<char>,
    key: EventSequenceKey,
)
    ensures
        ({
            let written = progress_statements(progress, table, replay_epoch, key);
            let read = progress_queries(progress, table, replay_epoch);
            &&& written.len() == read.len()
            &&& written.len() == (if progress == "__etl_streaming_progress"@ {
                1nat
            } else {
                2nat
            })
            &&& written[0] == progress_statement(progress, table, replay_epoch, key)
            &&& read[0] == progress_query(progress, table, replay_epoch)
            &&& progress != "__etl_streaming_progress"@ ==> written[1] == progress_statement(
                "__etl_streaming_progress"@,
                table,
                replay_epoch,
                key,
            ) && read[1] == progress_query("__etl_streaming_progress"@, table, replay_epoch)
        }),
{
}

/// Every predicate is deleted by, once: it stands, in brackets, at its place among the
/// terms of the statement that its place falls to, and the statements hold sixteen terms
/// each but for the last one.
pub proof fn law_every_predicate_is_deleted_once(
    table: DuckLakeTableName,
    predicates: Seq<Seq<char>>,
    index: int,
)
    requires
        0 <= index < predicates.len(),
    ensures
        ({
            let statements = delete_statements(table@, predicates);
            &&& statements.len() * 16 >= predicates.len() > (statements.len() - 1) * 16
            &&& 0 <= index / 16 < statements.len()
            &&& exists|terms: Seq<Seq<char>>|
                {
                    &&& statements[index / 16].sql == "DELETE FROM "@ + lake_table(table@)
                        + " WHERE "@ + #[trigger] joined(terms, " OR "@) + ";"@
                    &&& terms[index % 16] == "("@ + predicates[index] + ")"@
                    &&& terms.len() == (if (index / 16 + 1) * 16 <= predicates.len() {
                        16
                    } else {
                        predicates.len() - index / 16 * 16
                    })
                }
            &&& statements[index / 16].sensitive
        }),
{
    let statements = delete_statements(table@, predicates);
    let at = (index / 16) as nat;
    let chunk = chunk_of(predicates, at, SQL_DELETE_BATCH_SIZE as nat);
    let terms = bracketed(chunk);
    assert(statements.len() == (predicates.len() + 15) / 16);
    let start = index / 16 * 16;
    let end = if start + 16 <= predicates.len() {
        start + 16
    } else {
        predicates.len() as int
    };
    assert(at * 16 == start && (at + 1) * 16 == start + 16);
    assert(chunk == predicates.subrange(start, end));
    assert(index == start + index % 16 && index < end);
    assert(chunk[index % 16] == predicates[index]);
    assert(terms[index % 16] == "("@ + predicates[index] + ")"@);
    assert(statements[index / 16].sql == "DELETE FROM "@ + lake_table(table@) + " WHERE "@ + joined(
        terms,
        " OR "@,
    ) + ";"@);
}

/// A helper table is made ready in order: created, looked at for its epoch column, given
/// one exactly when it was not found, kept inline, and then nothing is left to do. Every
/// step but the last one has a statement.
pub proof fn law_helper_tables_are_made_in_order(table: &HelperTable, found: bool, any: bool)
    ensures
        ({
            let looked = next_helper_step(HelperTableStep::Create, any);
            let after = next_helper_step(looked, found);
            let kept = if found {
                after
            } else {
                next_helper_step(after, any)
            };
            &&& looked is FindEpochColumn
            &&& after is AddEpochColumn <==> !found
            &&& kept is SetInlining
            &&& next_helper_step(kept, any) is Done
            &&& next_helper_step(HelperTableStep::Done, any) is Done
            &&& helper_statement(table, HelperTableStep::Done) is None
            &&& helper_statement(table, looked) is Some && helper_statement(table, after) is Some
                && helper_statement(table, kept) is Some
            &&& helper_statement(table, HelperTableStep::Create) is Some
        }),
        exists|named: Seq<char>|
            #![trigger meaning(named)]
            {
                &&& meaning(named) == Some(Meaning::Text(table.name()))
                &&& helper_statement(table, HelperTableStep::FindEpochColumn)->0.sql
                    == "SELECT 1 FROM information_schema.columns WHERE table_catalog = "@
                    + literal_text("lake"@) + " AND table_name = "@ + named
                    + " AND column_name = "@ + literal_text("replay_epoch"@) + " LIMIT 1;"@
                &&& helper_statement(table, HelperTableStep::SetInlining)->0.sql == "CALL "@
                    + "lake"@ + ".set_option('data_inlining_row_limit', "@ + decimal(
                    HELPER_TABLE_DATA_INLINING_ROW_LIMIT as nat,
                ) + ", table_name => "@ + named + ");"@
            },
        helper_statement(table, HelperTableStep::AddEpochColumn)->0.sql == "ALTER TABLE "@
            + helper_table(table.name()) + " ADD COLUMN "@ + quoted("replay_epoch"@)
            + " VARCHAR;"@,
{
    let named = literal_text(table.name());
    law_text_literal_is_one_item(table.name());
    assert(meaning(named) is Some);
}

/// A failed statement is reported by its own description and detail, with what the driver
/// said: as it is where the statement carries no row values, and with the statement behind
/// it, where details are asked for, where it does.
pub proof fn law_failures_report_their_statement(
    statement: Statement,
    driver: Seq<char>,
    details: bool,
)
    ensures
        ({
            let error = statement_error(statement@, driver, details);
            &&& error.kind is DestinationQueryFailed
            &&& error.description == statement.failure@
            &&& error.detail == (match statement.detail {
                Some(detail) => Some(detail@),
                None => None,
            })
            &&& error.cause is None
            &&& !statement.sensitive ==> error.driver == Some(driver)
            &&& statement.sensitive && details ==> error.driver == Some(
                driver + "; SQL: "@ + statement.sql@,
            )
            &&& statement.sensitive && !details ==> error.driver == Some(
                "DuckDB query failed; error message omitted because it may contain row values"@,
            )
        }),
{
}

/// Statements that hold row values are sensitive and are not quoted in their details, and
/// the others are not sensitive.
pub proof fn law_statements_with_values_are_sensitive(
    table: TableNameView,
    predicates: Seq<Seq<char>>,
    assignments: Seq<Seq<char>>,
    text: Seq<char>,
    index: nat,
)
    ensures
        delete_statement(table, predicates, index).sensitive,
        update_statement(table, assignments, text).sensitive,
        key_set_delete_statement(table, text).sensitive,
        key_set_delete_statement(table, text).detail is None,
        !truncate_statement(table).sensitive,
        truncate_statement(table).detail == Some("sql: "@ + truncate_statement(table).sql),
        delete_statement(table, predicates, index).detail matches Some(detail)
            && "sql: DELETE FROM "@.is_prefix_of(detail),
        update_statement(table, assignments, text).detail == Some(
            "sql: UPDATE "@ + lake_table(table)
                + " SET [redacted assignments] WHERE [redacted predicate]; assignment_count: "@
                + decimal(assignments.len()) + "; has_predicate: "@ + (if text.len() == 0 {
                "false"@
            } else {
                "true"@
            }),
        ),
{
    let detail = delete_statement(table, predicates, index).detail->0;
    let lead = "sql: DELETE FROM "@;
    assert(detail.subrange(0, lead.len() as int) =~= lead);
}

/// The detail of a delete names the table and counts: all predicates, the place of the
/// statement, the statements, and the predicates of this one.
pub proof fn law_delete_details_count_predicates(
    table: DuckLakeTableName,
    predicates: Seq<Seq<char>>,
    index: int,
)
    requires
        0 <= index,
        index * 16 < predicates.len(),
    ensures
        delete_statement(table@, predicates, index as nat).detail == Some(
            "sql: DELETE FROM "@ + lake_table(table@)
                + " WHERE [redacted predicates]; predicate_count: "@ + decimal(predicates.len())
                + "; chunk_index: "@ + decimal(index as nat) + "; chunk_count: "@ + decimal(
                ((predicates.len() + 15) / 16) as nat,
            ) + "; chunk_predicate_count: "@ + decimal(
                (if predicates.len() - index * 16 < 16 {
                    predicates.len() - index * 16
                } else {
                    16
                }) as nat,
            ),
        ),
{
    let chunk = chunk_of(predicates, index as nat, SQL_DELETE_BATCH_SIZE as nat);
    let start = index * 16;
    let end = if start + 16 <= predicates.len() {
        start + 16
    } else {
        predicates.len() as int
    };
    assert((index + 1) * 16 == start + 16);
    assert(chunk == predicates.subrange(start, end));
    assert(chunk.len() == end - start);
}

/// Each stage of a query has its own failure, but for the two columns of a marker query,
/// which fail as the fetch does; a progress query fails by the column it reads.
pub proof fn law_query_failures_name_their_stage(index: usize)
    ensures
        marker_query_failure(QueryStage::Prepare) == "DuckLake marker query prepare failed"@,
        marker_query_failure(QueryStage::Query) == "DuckLake marker query failed"@,
        marker_query_failure(QueryStage::Fetch) == "DuckLake marker query row fetch failed"@,
        marker_query_failure(QueryStage::Column(index)) == marker_query_failure(
            QueryStage::Fetch,
        ),
        progress_query_failure(QueryStage::Prepare)
            == "DuckLake streaming progress query prepare failed"@,
        progress_query_failure(QueryStage::Query) == "DuckLake streaming progress query failed"@,
        progress_query_failure(QueryStage::Fetch)
            == "DuckLake streaming progress row fetch failed"@,
        progress_query_failure(QueryStage::Column(index)) == (if index == 0 {
            "DuckLake streaming progress commit lsn read failed"@
        } else {
            "DuckLake streaming progress tx ordinal read failed"@
        }),
        column_query_failure(QueryStage::Prepare) == column_query_failure(QueryStage::Query),
        column_query_failure(QueryStage::Query) == "DuckLake helper table schema lookup failed"@,
        column_query_failure(QueryStage::Fetch) == "DuckLake helper table schema row fetch failed"@,
        column_query_failure(QueryStage::Column(index)) == column_query_failure(
            QueryStage::Fetch,
        ),
{
}

/// A helper table is created under its own name, once, with the columns that are written
/// to it.
pub proof fn law_helper_tables_are_created_by_name(progress: StreamingProgressTable)
    ensures
        exists|columns: Seq<char>|
            HelperTable::StreamingProgress(progress).creation().sql == #[trigger] (
            "CREATE TABLE IF NOT EXISTS "@ + "lake"@ + ".\""@ + progress@ + "\""@ + columns),
        exists|columns: Seq<char>|
            HelperTable::AppliedBatches.creation().sql == #[trigger] (
            "CREATE TABLE IF NOT EXISTS "@ + "lake"@ + ".\""@ + "__etl_applied_table_batches"@
                + "\""@ + columns),
        HelperTable::StreamingProgress(progress).name() == progress@,
        HelperTable::AppliedBatches.name() == "__etl_applied_table_batches"@,
{
    let own =
        " (\n             table_name VARCHAR NOT NULL,\n             replay_epoch VARCHAR,\n             last_commit_lsn UBIGINT NOT NULL,\n             last_tx_ordinal UBIGINT NOT NULL,\n             updated_at TIMESTAMPTZ NOT NULL\n             );"@;
    let markers =
        " (\n             table_name VARCHAR NOT NULL,\n             replay_epoch VARCHAR,\n             batch_id VARCHAR NOT NULL,\n             batch_kind VARCHAR NOT NULL,\n             first_start_lsn UBIGINT,\n             last_commit_lsn UBIGINT,\n             applied_at TIMESTAMPTZ NOT NULL\n             );"@;
    assert(HelperTable::StreamingProgress(progress).creation().sql
        =~= "CREATE TABLE IF NOT EXISTS "@ + "lake"@ + ".\""@ + progress@ + "\""@ + own);
    assert(HelperTable::AppliedBatches.creation().sql =~= "CREATE TABLE IF NOT EXISTS "@ + "lake"@
        + ".\""@ + "__etl_applied_table_batches"@ + "\""@ + markers);
}

} // verus!
