//! The temporary staging table of a batch.

use vstd::prelude::*;

use crate::literal::{PreparedRows, PreparedRowsView};
use crate::reading::{identifier, law_identifier_reads_back};
use crate::schema::{lake_table, qualified_lake_table_name, table_id, DuckLakeTableName, TableNameView};
use crate::statements::{
    chunk_count_of, chunk_of, column_list, plain_statement, quoted_column_list, quoted_statement,
    sensitive_statement, statement_views, format_query_error_detail, Statement, StatementView,
};
use crate::text::{join_texts, joined, quote_identifier, quoted, texts};

verus! {

/// Maximum rows of one `INSERT ... VALUES` statement.
pub const SQL_INSERT_BATCH_SIZE: usize = 128;

/// Staging table of one destination table, created once and reused.
#[derive(Debug, PartialEq)]
pub struct ReusableStagingTable {
    pub table_name: DuckLakeTableName,
    pub staging_name: String,
    pub created: bool,
    pub insert_column_names: Vec<String>,
}

/// Contents of a [`ReusableStagingTable`].
pub struct StagingView {
    pub table: TableNameView,
    pub staging_name: Seq<char>,
    pub created: bool,
    pub columns: Seq<Seq<char>>,
}

impl View for ReusableStagingTable {
    type V = StagingView;

    open spec fn view(&self) -> StagingView {
        StagingView {
            table: self.table_name@,
            staging_name: self.staging_name@,
            created: self.created,
            columns: texts(self.insert_column_names@),
        }
    }
}

/// The staging table of a destination table, before it is created.
pub open spec fn fresh_staging(table: TableNameView, columns: Seq<Seq<char>>) -> StagingView {
    StagingView {
        table,
        staging_name: "__staging_"@ + table_id(table),
        created: false,
        columns,
    }
}

/// The statement that creates the staging table, with the columns of the
/// destination table and no rows.
pub open spec fn create_staging_statement(staging: StagingView) -> StatementView {
    plain_statement(
        "create or replace temp table "@ + quoted(staging.staging_name)
            + " as\n             select "@ + column_list(staging.columns) + " from "@ + lake_table(
            staging.table,
        ) + " limit 0;"@,
        "DuckLake staging table creation failed"@,
    )
}

/// The statement that empties the staging table.
pub open spec fn clear_staging_statement(staging: StagingView) -> StatementView {
    plain_statement(
        "truncate table "@ + quoted(staging.staging_name) + ";"@,
        "DuckLake staging table clear failed"@,
    )
}

/// The statement that drops the staging table.
pub open spec fn drop_staging_statement(staging: StagingView) -> StatementView {
    plain_statement(
        "drop table if exists "@ + quoted(staging.staging_name),
        "DuckLake staging table drop failed"@,
    )
}

/// The statement that appends every staged row to the destination table.
pub open spec fn insert_staged_statement(staging: StagingView) -> StatementView {
    quoted_statement(
        "insert into "@ + lake_table(staging.table) + " ("@ + column_list(staging.columns)
            + ") select "@ + column_list(staging.columns) + " from "@ + quoted(
            staging.staging_name,
        ) + ";"@,
        "DuckLake INSERT SELECT failed"@,
    )
}

/// One statement that stages a chunk of rows as SQL tuples.
pub open spec fn literal_statement(
    staging: StagingView,
    rows: Seq<Seq<char>>,
    index: nat,
) -> StatementView {
    sensitive_statement(
        "INSERT INTO "@ + quoted(staging.staging_name) + " VALUES "@ + joined(
            chunk_of(rows, index, SQL_INSERT_BATCH_SIZE as nat),
            ", "@,
        ) + ";"@,
        "DuckLake staging row insert failed"@,
        None,
    )
}

/// The statements that stage rows as SQL tuples, a bounded number of them each.
pub open spec fn literal_statements(staging: StagingView, rows: Seq<Seq<char>>) -> Seq<
    StatementView,
> {
    Seq::new(
        chunk_count_of(rows.len(), SQL_INSERT_BATCH_SIZE as nat),
        |index: int| literal_statement(staging, rows, index as nat),
    )
}

impl ReusableStagingTable {
    /// Creates the manager of one destination table's staging table.
    pub fn new(table_name: &DuckLakeTableName, insert_column_names: Vec<String>) -> (r:
        ReusableStagingTable)
        ensures
            r@ == fresh_staging(table_name@, texts(insert_column_names@)),
    {
        let mut staging_name = "__staging_".to_owned();
        staging_name.append(table_name.id().as_str());
        ReusableStagingTable {
            table_name: table_name.clone(),
            staging_name,
            created: false,
            insert_column_names,
        }
    }

    /// Builds the statement that creates the staging table.
    pub fn create_statement(&self) -> (r: Statement)
        ensures
            r@ == create_staging_statement(self@),
    {
        let mut sql = "create or replace temp table ".to_owned();
        sql.append(quote_identifier(self.staging_name.as_str()).as_str());
        sql.append(" as\n             select ");
        sql.append(quoted_column_list(&self.insert_column_names).as_str());
        sql.append(" from ");
        sql.append(qualified_lake_table_name(&self.table_name).as_str());
        sql.append(" limit 0;");
        Statement {
            sql,
            failure: "DuckLake staging table creation failed".to_owned(),
            detail: None,
            sensitive: false,
        }
    }

    /// Builds the statement that empties the staging table.
    pub fn clear_statement(&self) -> (r: Statement)
        ensures
            r@ == clear_staging_statement(self@),
    {
        let mut sql = "truncate table ".to_owned();
        sql.append(quote_identifier(self.staging_name.as_str()).as_str());
        sql.append(";");
        Statement {
            sql,
            failure: "DuckLake staging table clear failed".to_owned(),
            detail: None,
            sensitive: false,
        }
    }

    /// Builds the statement that drops the staging table.
    pub fn drop_statement(&self) -> (r: Statement)
        ensures
            r@ == drop_staging_statement(self@),
    {
        let mut sql = "drop table if exists ".to_owned();
        sql.append(quote_identifier(self.staging_name.as_str()).as_str());
        Statement {
            sql,
            failure: "DuckLake staging table drop failed".to_owned(),
            detail: None,
            sensitive: false,
        }
    }

    /// Builds the statement that appends every staged row to the destination.
    pub fn insert_statement(&self) -> (r: Statement)
        ensures
            r@ == insert_staged_statement(self@),
    {
        let columns = quoted_column_list(&self.insert_column_names);
        let mut sql = "insert into ".to_owned();
        sql.append(qualified_lake_table_name(&self.table_name).as_str());
        sql.append(" (");
        sql.append(columns.as_str());
        sql.append(") select ");
        sql.append(columns.as_str());
        sql.append(" from ");
        sql.append(quote_identifier(self.staging_name.as_str()).as_str());
        sql.append(";");
        let detail = format_query_error_detail(sql.as_str());
        Statement {
            sql,
            failure: "DuckLake INSERT SELECT failed".to_owned(),
            detail: Some(detail),
            sensitive: false,
        }
    }

    /// Builds the statements that stage rows as SQL tuples.
    pub fn literal_statements(&self, rows: &Vec<String>) -> (r: Vec<Statement>)
        ensures
            statement_views(r@) == literal_statements(self@, texts(rows@)),
    {
        let target = quote_identifier(self.staging_name.as_str());
        let ghost all = texts(rows@);
        let size: usize = SQL_INSERT_BATCH_SIZE;
        let total: usize = rows.len();
        let chunk_count: usize = total / size + if total % size == 0 {
            0
        } else {
            1
        };
        assert(chunk_count == chunk_count_of(all.len(), size as nat));
        let mut statements: Vec<Statement> = Vec::new();
        let mut start: usize = 0;
        for index in 0..chunk_count
            invariant
                all == texts(rows@),
                total == rows@.len(),
                size == SQL_INSERT_BATCH_SIZE,
                chunk_count == chunk_count_of(all.len(), size as nat),
                start == index * size || index == chunk_count,
                target@ == quoted(self@.staging_name),
                statements@.len() == index,
                forall|j: int|
                    0 <= j < index ==> (#[trigger] statements@[j])@ == literal_statement(
                        self@,
                        all,
                        j as nat,
                    ),
        {
            let end: usize = if total - start > size {
                start + size
            } else {
                total
            };
            let ghost chunk = chunk_of(all, index as nat, size as nat);
            let mut parts: Vec<String> = Vec::new();
            for i in start..end
                invariant
                    all == texts(rows@),
                    total == rows@.len(),
                    start <= end <= total,
                    chunk == all.subrange(start as int, end as int),
                    parts@.len() == i - start,
                    forall|j: int| 0 <= j < i - start ==> (#[trigger] parts@[j])@ == chunk[j],
            {
                assert(chunk[i - start] == rows@[i as int]@);
                parts.push(rows[i].clone());
            }
            assert(texts(parts@) =~= chunk);
            let mut sql = "INSERT INTO ".to_owned();
            sql.append(target.as_str());
            sql.append(" VALUES ");
            sql.append(join_texts(&parts, ", ").as_str());
            sql.append(";");
            statements.push(
                Statement {
                    sql,
                    failure: "DuckLake staging row insert failed".to_owned(),
                    detail: None,
                    sensitive: true,
                },
            );
            start = end;
        }
        assert(statement_views(statements@) =~= literal_statements(self@, all));
        statements
    }
}

/// How a payload reaches the staging table.
pub enum StagingLoad {
    /// The host appends the payload itself.
    Append,
    /// The payload is SQL.
    Execute(Vec<Statement>),
}

/// Contents of a [`StagingLoad`].
pub enum StagingLoadView {
    Append,
    Execute(Seq<StatementView>),
}

impl View for StagingLoad {
    type V = StagingLoadView;

    open spec fn view(&self) -> StagingLoadView {
        match *self {
            StagingLoad::Append => StagingLoadView::Append,
            StagingLoad::Execute(statements) => StagingLoadView::Execute(
                statement_views(statements@),
            ),
        }
    }
}

/// How a payload reaches the staging table.
pub open spec fn staging_load(staging: StagingView, rows: PreparedRowsView) -> StagingLoadView {
    match rows {
        PreparedRowsView::SqlLiterals(rows) => StagingLoadView::Execute(
            literal_statements(staging, rows),
        ),
        _ => StagingLoadView::Append,
    }
}

impl ReusableStagingTable {
    /// Decides how a payload reaches the staging table.
    pub fn load_rows(&self, rows: &PreparedRows) -> (r: StagingLoad)
        ensures
            r@ == staging_load(self@, rows@),
    {
        match rows {
            PreparedRows::SqlLiterals(rows) => StagingLoad::Execute(self.literal_statements(rows)),
            _ => StagingLoad::Append,
        }
    }
}

/// Where appending a payload to the staging table failed.
#[derive(Clone, Copy, Debug, PartialEq, Eq, Structural)]
pub enum AppendStage {
    Open,
    Row,
    RecordBatch,
    Flush,
}

/// The description of a failed append.
pub open spec fn append_failure(stage: AppendStage) -> Seq<char> {
    match stage {
        AppendStage::Open => "DuckLake staging appender creation failed"@,
        AppendStage::Row => "DuckLake staging append_row failed"@,
        AppendStage::RecordBatch => "DuckLake staging append_record_batch failed"@,
        AppendStage::Flush => "DuckLake staging appender flush failed"@,
    }
}

/// Returns the description of a failed append.
pub fn append_failure_description(stage: AppendStage) -> (r: &'static str)
    ensures
        r@ == append_failure(stage),
{
    match stage {
        AppendStage::Open => "DuckLake staging appender creation failed",
        AppendStage::Row => "DuckLake staging append_row failed",
        AppendStage::RecordBatch => "DuckLake staging append_record_batch failed",
        AppendStage::Flush => "DuckLake staging appender flush failed",
    }
}

/// The list of columns names every column once, quoted and in order.
pub proof fn law_column_list_names_every_column(names: Seq<Seq<char>>)
    ensures
        exists|parts: Seq<Seq<char>>|
            {
                &&& column_list(names) == #[trigger] joined(parts, ", "@)
                &&& parts.len() == names.len()
                &&& forall|k: int|
                    0 <= k < names.len() ==> identifier(#[trigger] parts[k]) == Some(names[k])
            },
{
    let parts = names.map_values(|n: Seq<char>| quoted(n));
    assert forall|k: int| 0 <= k < names.len() implies identifier(#[trigger] parts[k]) == Some(
        names[k],
    ) by {
        law_identifier_reads_back(names[k]);
    }
    assert(column_list(names) == joined(parts, ", "@));
}

/// The staging table of a batch is named after the table it stages, is made of the
/// columns of that table that the batch writes, and is emptied, dropped and inserted
/// from under that name. What is inserted goes to the columns it was staged in.
pub proof fn law_staging_statements_name_their_tables(
    table: DuckLakeTableName,
    columns: Seq<Seq<char>>,
)
    ensures
        ({
            let staging = fresh_staging(table@, columns);
            let target = lake_table(table@);
            exists|name: Seq<char>|
                {
                    &&& #[trigger] identifier(name) == Some(
                        "__staging_"@ + (table.schema@ + "."@ + table.table@),
                    )
                    &&& create_staging_statement(staging).sql == "create or replace temp table "@
                        + name + " as\n             select "@ + column_list(columns) + " from "@
                        + target + " limit 0;"@
                    &&& clear_staging_statement(staging).sql == "truncate table "@ + name + ";"@
                    &&& drop_staging_statement(staging).sql == "drop table if exists "@ + name
                    &&& insert_staged_statement(staging).sql == "insert into "@ + target + " ("@
                        + column_list(columns) + ") select "@ + column_list(columns) + " from "@
                        + name + ";"@
                }
        }),
{
    let name = quoted("__staging_"@ + table_id(table@));
    law_identifier_reads_back("__staging_"@ + table_id(table@));
    assert(identifier(name) is Some);
}

/// Every row that is staged by SQL is inserted once: its tuple stands at its place among
/// the tuples of the statement that its place falls to. Rows of any other form are
/// appended.
pub proof fn law_every_row_is_staged_once(
    table: DuckLakeTableName,
    columns: Seq<Seq<char>>,
    rows: Seq<Seq<char>>,
    index: int,
)
    requires
        0 <= index < rows.len(),
    ensures
        ({
            let staging = fresh_staging(table@, columns);
            let load = staging_load(staging, PreparedRowsView::SqlLiterals(rows));
            &&& load matches StagingLoadView::Execute(statements) && {
                &&& statements.len() * 128 >= rows.len() > (statements.len() - 1) * 128
                &&& 0 <= index / 128 < statements.len()
                &&& exists|tuples: Seq<Seq<char>>|
                    {
                        &&& statements[index / 128].sql == "INSERT INTO "@ + quoted(
                            "__staging_"@ + table_id(table@),
                        ) + " VALUES "@ + #[trigger] joined(tuples, ", "@) + ";"@
                        &&& tuples[index % 128] == rows[index]
                        &&& tuples.len() == (if (index / 128 + 1) * 128 <= rows.len() {
                            128
                        } else {
                            rows.len() - index / 128 * 128
                        })
                    }
                &&& statements[index / 128].sensitive
            }
        }),
{
    let staging = fresh_staging(table@, columns);
    let statements = literal_statements(staging, rows);
    let at = (index / 128) as nat;
    let tuples = chunk_of(rows, at, SQL_INSERT_BATCH_SIZE as nat);
    assert(statements.len() == (rows.len() + 127) / 128);
    let start = index / 128 * 128;
    let end = if start + 128 <= rows.len() {
        start + 128
    } else {
        rows.len() as int
    };
    assert(at * 128 == start && (at + 1) * 128 == start + 128);
    assert(tuples == rows.subrange(start, end));
    assert(index == start + index % 128 && index < end);
    assert(tuples[index % 128] == rows[index]);
    assert(statements[index / 128].sql == "INSERT INTO "@ + quoted(
        "__staging_"@ + table_id(table@),
    ) + " VALUES "@ + joined(tuples, ", "@) + ";"@);
}

/// Rows that are not SQL are appended by the host.
pub proof fn law_other_rows_are_appended(staging: StagingView, rows: PreparedRows)
    ensures
        staging_load(staging, rows@) is Append <==> !(rows is SqlLiterals),
{
}

/// Each stage of an append has its own failure.
pub proof fn law_append_failures_name_their_stage(stage: AppendStage, other: AppendStage)
    ensures
        append_failure(stage) == append_failure(other) <==> stage == other,
        append_failure(AppendStage::Open) == "DuckLake staging appender creation failed"@,
        append_failure(AppendStage::Row) == "DuckLake staging append_row failed"@,
        append_failure(AppendStage::RecordBatch)
            == "DuckLake staging append_record_batch failed"@,
        append_failure(AppendStage::Flush) == "DuckLake staging appender flush failed"@,
{
    reveal_strlit("DuckLake staging appender creation failed");
    reveal_strlit("DuckLake staging append_row failed");
    reveal_strlit("DuckLake staging append_record_batch failed");
    reveal_strlit("DuckLake staging appender flush failed");
    assert(append_failure(AppendStage::Open).len() == 41);
    assert(append_failure(AppendStage::Row).len() == 34);
    assert(append_failure(AppendStage::RecordBatch).len() == 43);
    assert(append_failure(AppendStage::Flush).len() == 38);
}

} // verus!
