//! The read that completes the partial updates of one batch.
//!
//! The host runs the statements and hands back the rows; everything else about
//! the read is decided here.

use vstd::prelude::*;

use crate::collect::{collect, lemma_collect, lemma_collect_fails};
use crate::data::{
    at_most_machine, capped_sum, cell_bytes, cell_views, law_cells_size_counts_every_value,
    row_size, Cell, CellView, TableRow,
};
use crate::equivalence::{projected, reading, recovered_from};
use crate::error::{detailed_error, plain_error, ErrorKind, ErrorView, EtlError};
use crate::identity::{
    identity_columns, identity_predicate, identity_text, pair_cells, pair_columns,
};
use crate::key_set::{
    component_views, identity_column_names, join_clause, ComponentView, DeleteKeySet,
};
use crate::normalize::is_at;
use crate::partial_update::{
    empty_entries, entries_with, is_requested, recovery_key_views, strictly_ascending,
    PartialUpdateRecoveryKey, PartialUpdateRecoveryRequest, RecoveredPartialRows, RecoveredView,
    RecoveryKeyView, RequestView,
};
use crate::rewrite::{
    lemma_rewritten_compose, lemma_rewritten_push, lemma_rewritten_same, rewritten, same_items,
};
use crate::schema::{
    column_views, identity_indexes, identity_positions, lake_table,
    law_identity_indexes_are_the_identity_columns, lemma_identity_indexes,
    qualified_lake_table_name, ColumnSchema, ColumnView, DuckLakeTableName, ReplicatedTableSchema,
    SchemaView, TableNameView,
};
use crate::statements::{plain_statement, Statement, StatementView};
use crate::stored_value::{
    read_expression, read_expression_of, stored_cell, value_to_cell, StoredValue, StoredView,
};
use crate::text::{decimal, decimal_u64, join_texts, joined, texts};

verus! {

/// Maximum identities one recovery statement reads.
pub const RECOVERY_KEY_BATCH_SIZE: usize = 1024;

/// The replicated columns at the given indexes.
pub open spec fn columns_at(schema: SchemaView, columns: Seq<usize>) -> Seq<ColumnView> {
    columns.map_values(|c: usize| schema.columns[c as int])
}

/// The columns a recovery statement reads: the identity columns, then the ones
/// to recover.
pub open spec fn read_columns(schema: SchemaView, columns: Seq<usize>) -> Seq<ColumnView> {
    identity_columns(schema) + columns_at(schema, columns)
}

/// Whether every index names a replicated column.
pub open spec fn columns_in_range(schema: SchemaView, columns: Seq<usize>) -> bool {
    forall|k: int| 0 <= k < columns.len() ==> #[trigger] columns[k] < schema.columns.len()
}

/// The first index that names no replicated column.
pub open spec fn out_of_range(schema: SchemaView, columns: Seq<usize>) -> Option<usize>
    decreases columns.len(),
{
    if columns.len() == 0 {
        None
    } else {
        match out_of_range(schema, columns.drop_last()) {
            Some(index) => Some(index),
            None => if columns.last() < schema.columns.len() {
                None
            } else {
                Some(columns.last())
            },
        }
    }
}

proof fn lemma_out_of_range(schema: SchemaView, columns: Seq<usize>, count: int)
    requires
        0 <= count <= columns.len(),
    ensures
        out_of_range(schema, columns.take(count)) is Some ==> out_of_range(schema, columns)
            == out_of_range(schema, columns.take(count)),
        out_of_range(schema, columns) is None ==> columns_in_range(schema, columns),
    decreases columns.len(),
{
    if count == columns.len() {
        assert(columns.take(count) =~= columns);
    }
    if columns.len() > 0 {
        let shorter = columns.drop_last();
        if count < columns.len() {
            assert(shorter.take(count) =~= columns.take(count));
            lemma_out_of_range(schema, shorter, count);
        } else {
            lemma_out_of_range(schema, shorter, 0);
        }
        if out_of_range(schema, columns) is None {
            assert forall|k: int| 0 <= k < columns.len() implies #[trigger] columns[k]
                < schema.columns.len() by {
                if k < shorter.len() {
                    assert(shorter[k] == columns[k]);
                }
            }
        }
    }
}

/// The error of a requested column that is not replicated.
pub open spec fn column_range_error(schema: SchemaView, index: usize) -> ErrorView {
    detailed_error(
        ErrorKind::InvalidState,
        "DuckLake partial update recovery column is out of range"@,
        "Table '"@ + schema.name + "' has "@ + decimal(schema.columns.len())
            + " replicated columns, requested index "@ + decimal(index as nat),
    )
}

/// Checks that every requested column is replicated.
pub fn check_recovery_columns(schema: &ReplicatedTableSchema, columns: &Vec<usize>) -> (r: Result<
    (),
    EtlError,
>)
    ensures
        match r {
            Ok(_) => out_of_range(schema@, columns@) is None && columns_in_range(schema@, columns@),
            Err(error) => out_of_range(schema@, columns@) matches Some(index) && error@
                == column_range_error(schema@, index),
        },
{
    let width: usize = schema.column_schemas().len();
    assert(width == schema@.columns.len());
    for i in 0..columns.len()
        invariant
            width == schema@.columns.len(),
            out_of_range(schema@, columns@.take(i as int)) is None,
    {
        assert(columns@.take(i + 1).drop_last() =~= columns@.take(i as int));
        if columns[i] >= width {
            proof {
                lemma_out_of_range(schema@, columns@, i + 1);
            }
            let mut detail = "Table '".to_owned();
            detail.append(schema.name());
            detail.append("' has ");
            detail.append(decimal_u64(width as u64).as_str());
            detail.append(" replicated columns, requested index ");
            detail.append(decimal_u64(columns[i] as u64).as_str());
            return Err(
                EtlError::with_detail(
                    ErrorKind::InvalidState,
                    "DuckLake partial update recovery column is out of range",
                    detail,
                ),
            );
        }
    }
    proof {
        assert(columns@.take(columns@.len() as int) =~= columns@);
        lemma_out_of_range(schema@, columns@, 0);
    }
    Ok(())
}

/// The expressions that read columns back.
pub open spec fn read_expressions(columns: Seq<ColumnView>) -> Seq<Seq<char>> {
    columns.map_values(|c: ColumnView| read_expression_of(c))
}

/// The key components of identities.
pub open spec fn key_components(keys: Seq<RecoveryKeyView>) -> Seq<Seq<ComponentView>> {
    keys.map_values(|k: RecoveryKeyView| k.components)
}

/// The statement that reads the stored rows of identities.
pub open spec fn recovery_statement(
    table: TableNameView,
    schema: SchemaView,
    columns: Seq<usize>,
    keys: Seq<RecoveryKeyView>,
) -> StatementView {
    plain_statement(
        "SELECT "@ + joined(read_expressions(read_columns(schema, columns)), ", "@) + " FROM "@
            + lake_table(table) + " AS cdc_target"@ + join_clause(
            identity_column_names(schema),
            key_components(keys),
        ) + ";"@,
        "DuckLake partial update recovery failed"@,
    )
}

/// Where a recovery statement failed.
#[derive(Clone, Copy, Debug, PartialEq, Eq, Structural)]
pub enum RecoveryStage {
    Statement,
    Row,
    Value,
}

/// The description of a failed recovery statement.
pub open spec fn recovery_failure(stage: RecoveryStage) -> Seq<char> {
    match stage {
        RecoveryStage::Statement => "DuckLake partial update recovery failed"@,
        RecoveryStage::Row => "DuckLake partial update recovery row fetch failed"@,
        RecoveryStage::Value => "DuckLake partial update recovery value fetch failed"@,
    }
}

/// Returns the description of a failed recovery statement.
pub fn recovery_failure_description(stage: RecoveryStage) -> (r: &'static str)
    ensures
        r@ == recovery_failure(stage),
{
    match stage {
        RecoveryStage::Statement => "DuckLake partial update recovery failed",
        RecoveryStage::Row => "DuckLake partial update recovery row fetch failed",
        RecoveryStage::Value => "DuckLake partial update recovery value fetch failed",
    }
}

fn collect_read_columns<'a>(schema: &'a ReplicatedTableSchema, columns: &Vec<usize>) -> (r: Vec<
    &'a ColumnSchema,
>)
    requires
        columns_in_range(schema@, columns@),
    ensures
        r@.len() == read_columns(schema@, columns@).len(),
        forall|k: int| 0 <= k < r@.len() ==> (#[trigger] r@[k])@ == read_columns(schema@, columns@)[k],
{
    let all = schema.column_schemas();
    let indexes = schema.identity_column_indexes();
    let ghost identity = identity_indexes(schema@.columns);
    proof {
        lemma_identity_indexes(schema@.columns);
        assert(identity.len() == indexes@.map_values(|i: usize| i as int).len());
        assert(forall|j: int| 0 <= j < identity.len() ==> #[trigger] identity[j] == indexes@[j]);
        assert(schema@.columns.len() == all@.len());
    }
    let ghost wanted = read_columns(schema@, columns@);
    let mut found: Vec<&'a ColumnSchema> = Vec::new();
    for i in 0..indexes.len()
        invariant
            identity == identity_indexes(schema@.columns),
            identity.len() == indexes@.len(),
            column_views(all@) == schema@.columns,
            wanted == read_columns(schema@, columns@),
            forall|j: int| 0 <= j < identity.len() ==> #[trigger] identity[j] == indexes@[j],
            forall|j: int| 0 <= j < identity.len() ==> 0 <= #[trigger] identity[j] < all@.len(),
            found@.len() == i,
            forall|k: int| 0 <= k < i ==> (#[trigger] found@[k])@ == wanted[k],
    {
        let index: usize = indexes[i];
        assert(identity[i as int] == index);
        assert(schema@.columns[index as int] == all@[index as int]@);
        assert(wanted[i as int] == identity_columns(schema@)[i as int]);
        found.push(&all[index]);
    }
    let lead: usize = indexes.len();
    for i in 0..columns.len()
        invariant
            lead == identity_columns(schema@).len(),
            column_views(all@) == schema@.columns,
            wanted == read_columns(schema@, columns@),
            columns_in_range(schema@, columns@),
            found@.len() == lead + i,
            forall|k: int| 0 <= k < lead + i ==> (#[trigger] found@[k])@ == wanted[k],
    {
        let index: usize = columns[i];
        assert(columns@[i as int] < schema@.columns.len());
        assert(schema@.columns.len() == all@.len());
        assert(schema@.columns[index as int] == all@[index as int]@);
        assert(wanted[lead + i] == columns_at(schema@, columns@)[i as int]);
        found.push(&all[index]);
    }
    found
}

/// Builds the statement that reads the stored rows of the identities from
/// `start` up to `end`.
pub fn build_recovery_statement(
    table_name: &DuckLakeTableName,
    schema: &ReplicatedTableSchema,
    columns: &Vec<usize>,
    keys: &Vec<PartialUpdateRecoveryKey>,
    start: usize,
    end: usize,
) -> (r: Statement)
    requires
        columns_in_range(schema@, columns@),
        start < end <= keys@.len(),
    ensures
        r@ == recovery_statement(
            table_name@,
            schema@,
            columns@,
            recovery_key_views(keys@).subrange(start as int, end as int),
        ),
{
    let ghost views = recovery_key_views(keys@);
    let ghost chunk = views.subrange(start as int, end as int);
    let mut key_set = DeleteKeySet::new(schema);
    assert(key_components(views.subrange(start as int, start as int)) =~= Seq::empty());
    for i in start..end
        invariant
            views == recovery_key_views(keys@),
            start < end <= keys@.len(),
            key_set.wf(),
            key_set.columns() == identity_column_names(schema@),
            key_set.pushed() == key_components(views.subrange(start as int, i as int)),
    {
        let ghost before = key_set.pushed();
        key_set.push(&keys[i].components);
        assert(views[i as int].components == component_views(keys@[i as int].components@));
        assert(key_components(views.subrange(start as int, i + 1)) =~= before.push(
            views[i as int].components,
        ));
    }
    let clause = match key_set.take_join_clause() {
        Some(clause) => clause,
        None => {
            assert(false);
            String::new()
        },
    };
    let read = collect_read_columns(schema, columns);
    let ghost wanted = read_columns(schema@, columns@);
    let mut expressions: Vec<String> = Vec::new();
    for i in 0..read.len()
        invariant
            wanted == read_columns(schema@, columns@),
            read@.len() == wanted.len(),
            forall|k: int| 0 <= k < read@.len() ==> (#[trigger] read@[k])@ == wanted[k],
            expressions@.len() == i,
            forall|k: int|
                0 <= k < i ==> (#[trigger] expressions@[k])@ == read_expression_of(wanted[k]),
    {
        expressions.push(read_expression(read[i]));
    }
    assert(texts(expressions@) =~= read_expressions(wanted));
    let mut sql = "SELECT ".to_owned();
    sql.append(join_texts(&expressions, ", ").as_str());
    sql.append(" FROM ");
    sql.append(qualified_lake_table_name(table_name).as_str());
    sql.append(" AS cdc_target");
    sql.append(clause.as_str());
    sql.append(";");
    Statement::plain(sql, "DuckLake partial update recovery failed")
}

/// Contents of the values of one row.
pub open spec fn value_views(values: Seq<StoredValue>) -> Seq<StoredView> {
    values.map_values(|v: StoredValue| v@)
}

/// The error of a row that lacks a value.
pub open spec fn missing_value_error() -> ErrorView {
    plain_error(
        ErrorKind::DestinationQueryFailed,
        "DuckLake partial update recovery value fetch failed"@,
    )
}

/// The cell a row that was read back holds in a column.
pub open spec fn read_cell(
    columns: Seq<ColumnView>,
    values: Seq<StoredView>,
    k: int,
) -> Result<CellView, ErrorView> {
    if k < values.len() {
        stored_cell(columns[k].kind, columns[k].is_array, columns[k].catalog_name, values[k])
    } else {
        Err(missing_value_error())
    }
}

/// The cells of a row that was read back.
pub open spec fn read_cells(columns: Seq<ColumnView>, values: Seq<StoredView>) -> Result<
    Seq<CellView>,
    ErrorView,
> {
    collect(columns.len(), |k: int| read_cell(columns, values, k))
}

/// What was recovered once the cells of one more row were read: the row belongs
/// to the identity its own cells name.
pub open spec fn with_read_cells(
    schema: SchemaView,
    recovered: RecoveredView,
    cells: Seq<CellView>,
) -> RecoveredView {
    let lead = identity_columns(schema).len() as int;
    RecoveredView {
        columns: recovered.columns,
        rows: entries_with(
            recovered.rows,
            identity_text(identity_columns(schema), cells.take(lead)),
            cells.skip(lead),
        ),
    }
}

/// What was recovered once one more row was read.
pub open spec fn with_read_row(
    schema: SchemaView,
    recovered: RecoveredView,
    values: Seq<StoredView>,
) -> Result<RecoveredView, ErrorView> {
    match read_cells(read_columns(schema, recovered.columns), values) {
        Err(error) => Err(error),
        Ok(cells) => Ok(with_read_cells(schema, recovered, cells)),
    }
}

/// The decoded bytes of the values that one row recovered.
pub open spec fn read_row_size(schema: SchemaView, columns: Seq<usize>, values: Seq<StoredView>) -> nat {
    match read_cells(read_columns(schema, columns), values) {
        Err(_) => 0,
        Ok(cells) => row_size(cells.skip(identity_columns(schema).len() as int)),
    }
}

fn convert_row(schema: &ReplicatedTableSchema, columns: &Vec<usize>, values: &Vec<StoredValue>) -> (r:
    Result<Vec<Cell>, EtlError>)
    requires
        columns_in_range(schema@, columns@),
    ensures
        match r {
            Ok(cells) => read_cells(read_columns(schema@, columns@), value_views(values@)) == Ok::<
                Seq<CellView>,
                ErrorView,
            >(cell_views(cells@)),
            Err(error) => read_cells(read_columns(schema@, columns@), value_views(values@))
                == Err::<Seq<CellView>, ErrorView>(error@),
        },
{
    let read = collect_read_columns(schema, columns);
    let ghost wanted = read_columns(schema@, columns@);
    let ghost views = value_views(values@);
    let ghost step = |k: int| read_cell(wanted, views, k);
    let mut cells: Vec<Cell> = Vec::new();
    assert(cell_views(cells@) =~= Seq::empty());
    for i in 0..read.len()
        invariant
            wanted == read_columns(schema@, columns@),
            views == value_views(values@),
            step == (|k: int| read_cell(wanted, views, k)),
            read@.len() == wanted.len(),
            forall|k: int| 0 <= k < read@.len() ==> (#[trigger] read@[k])@ == wanted[k],
            cells@.len() == i,
            collect(i as nat, step) == Ok::<Seq<CellView>, ErrorView>(
                cell_views(cells@),
            ),
    {
        let ghost before = cell_views(cells@);
        assert(step(i as int) == read_cell(wanted, views, i as int));
        if i >= values.len() {
            proof {
                lemma_collect_fails((i + 1) as nat, wanted.len(), step);
            }
            return Err(
                EtlError::new(
                    ErrorKind::DestinationQueryFailed,
                    "DuckLake partial update recovery value fetch failed",
                ),
            );
        }
        assert(views[i as int] == values@[i as int]@);
        assert(read@[i as int]@ == wanted[i as int]);
        match value_to_cell(&read[i].column_type, &values[i]) {
            Err(error) => {
                proof {
                    lemma_collect_fails((i + 1) as nat, wanted.len(), step);
                }
                return Err(error);
            },
            Ok(cell) => {
                cells.push(cell);
                assert(cell_views(cells@) =~= before.push(cell@));
            },
        }
    }
    Ok(cells)
}

/// Converts one row that was read back and records it under the identity its
/// own cells name. Returns the decoded bytes it recovered.
pub fn absorb_recovered_row(
    schema: &ReplicatedTableSchema,
    recovered: &mut RecoveredPartialRows,
    values: &Vec<StoredValue>,
) -> (r: Result<usize, EtlError>)
    requires
        old(recovered).wf(),
        columns_in_range(schema@, old(recovered)@.columns),
    ensures
        final(recovered).wf(),
        match r {
            Ok(bytes) => {
                &&& with_read_row(schema@, old(recovered)@, value_views(values@)) == Ok::<
                    RecoveredView,
                    ErrorView,
                >(final(recovered)@)
                &&& bytes == read_row_size(
                    schema@,
                    old(recovered)@.columns,
                    value_views(values@),
                )
            },
            Err(error) => {
                &&& with_read_row(schema@, old(recovered)@, value_views(values@)) == Err::<
                    RecoveredView,
                    ErrorView,
                >(error@)
                &&& final(recovered)@ == old(recovered)@
            },
        },
{
    let mut cells = match convert_row(schema, recovered.columns(), values) {
        Err(error) => return Err(error),
        Ok(cells) => cells,
    };
    let ghost columns = recovered@.columns;
    let ghost all = cell_views(cells@);
    let indexes = schema.identity_column_indexes();
    let lead: usize = indexes.len();
    proof {
        lemma_identity_indexes(schema@.columns);
        assert(identity_indexes(schema@.columns).len() == indexes@.map_values(
            |i: usize| i as int,
        ).len());
        let wanted = read_columns(schema@, columns);
        lemma_collect(wanted.len(), |k: int| read_cell(wanted, value_views(values@), k));
        assert(cells@.len() == all.len());
        assert(wanted.len() >= lead);
    }
    let rest = cells.split_off(lead);
    let columns_of = schema.column_schemas();
    let ghost identity = identity_indexes(schema@.columns);
    let mut pairs: Vec<(&ColumnSchema, &Cell)> = Vec::new();
    proof {
        assert(cell_views(cells@) =~= all.take(lead as int));
        assert(cell_views(rest@) =~= all.skip(lead as int));
        assert(forall|j: int| 0 <= j < identity.len() ==> #[trigger] identity[j] == indexes@[j]);
    }
    for i in 0..lead
        invariant
            lead == indexes@.len(),
            lead == cells@.len(),
            identity == identity_indexes(schema@.columns),
            identity.len() == lead,
            column_views(columns_of@) == schema@.columns,
            forall|j: int| 0 <= j < identity.len() ==> #[trigger] identity[j] == indexes@[j],
            forall|j: int|
                0 <= j < identity.len() ==> 0 <= #[trigger] identity[j] < schema@.columns.len(),
            pairs@.len() == i,
            forall|j: int|
                0 <= j < i ==> (#[trigger] pairs@[j]).0@ == schema@.columns[identity[j]],
            forall|j: int| 0 <= j < i ==> (#[trigger] pairs@[j]).1@ == cells@[j]@,
    {
        let index: usize = indexes[i];
        assert(identity[i as int] == index);
        assert(schema@.columns.len() == columns_of@.len());
        assert(schema@.columns[index as int] == columns_of@[index as int]@);
        pairs.push((&columns_of[index], &cells[i]));
    }
    proof {
        assert(pair_columns(pairs@) =~= identity_columns(schema@));
        assert(pair_cells(pairs@) =~= cell_views(cells@));
    }
    let predicate = identity_predicate(&pairs);
    let row = TableRow { values: rest };
    let bytes: usize = row.size_hint();
    recovered.push(predicate.as_str(), row);
    Ok(bytes)
}

/// The stored rows read back for one request, and how many of its identities
/// they cover.
pub struct PartialUpdateRecoveryOutcome {
    pub recovered: RecoveredPartialRows,
    pub covered_keys: usize,
}

/// How many identities the next statement reads when there is room for more.
///
/// A read without a budget fills its statements. A read with one starts with a
/// single identity, and sizes later statements by what an identity took so far.
pub open spec fn statement_limit(budget: nat, covered: nat, bytes: nat) -> nat {
    if budget == usize::MAX {
        RECOVERY_KEY_BATCH_SIZE as nat
    } else if covered == 0 {
        1
    } else if bytes == 0 {
        RECOVERY_KEY_BATCH_SIZE as nat
    } else {
        let each = bytes / covered + if bytes % covered == 0 {
            0nat
        } else {
            1nat
        };
        let fitting = (budget - bytes) as nat / each;
        if fitting < 1 {
            1
        } else if fitting > RECOVERY_KEY_BATCH_SIZE {
            RECOVERY_KEY_BATCH_SIZE as nat
        } else {
            fitting
        }
    }
}

/// How many identities the next statement reads. None is read once all were, or
/// once the budget is used up.
pub open spec fn next_keys(total: nat, budget: nat, covered: nat, bytes: nat) -> nat {
    if covered >= total || (covered > 0 && bytes >= budget) {
        0
    } else if (total - covered) as nat <= statement_limit(budget, covered, bytes) {
        (total - covered) as nat
    } else {
        statement_limit(budget, covered, bytes)
    }
}

fn next_key_count(total: usize, budget: usize, covered: usize, bytes: usize) -> (r: usize)
    ensures
        r == next_keys(total as nat, budget as nat, covered as nat, bytes as nat),
        r <= RECOVERY_KEY_BATCH_SIZE,
{
    if covered >= total || (covered > 0 && bytes >= budget) {
        return 0;
    }
    let limit: usize = if budget == usize::MAX {
        RECOVERY_KEY_BATCH_SIZE
    } else if covered == 0 {
        1
    } else if bytes == 0 {
        RECOVERY_KEY_BATCH_SIZE
    } else {
        let whole: usize = bytes / covered;
        let partial: bool = bytes % covered != 0;
        proof {
            if covered == 1 {
                assert(bytes % covered == 0);
            } else {
                assert(whole <= bytes / 2) by (nonlinear_arith)
                    requires
                        covered >= 2,
                        whole == bytes / covered,
                ;
            }
            if whole == 0 {
                assert(partial) by (nonlinear_arith)
                    requires
                        covered > 0,
                        bytes > 0,
                        bytes / covered == 0,
                        partial == (bytes % covered != 0),
                ;
            }
        }
        let each: usize = if partial {
            whole + 1
        } else {
            whole
        };
        let fitting: usize = (budget - bytes) / each;
        if fitting < 1 {
            1
        } else if fitting > RECOVERY_KEY_BATCH_SIZE {
            RECOVERY_KEY_BATCH_SIZE
        } else {
            fitting
        }
    };
    if total - covered <= limit {
        total - covered
    } else {
        limit
    }
}

/// A recovery read, driven by the host: it runs each statement, hands in every
/// row and says when the statement is done.
pub struct RecoveryRead {
    covered: usize,
    reading: usize,
    bytes: usize,
    recovered: RecoveredPartialRows,
}

/// Contents of a [`RecoveryRead`]: the identities covered by finished
/// statements, those of the statement under way, and what was read.
pub struct ReadView {
    pub covered: nat,
    pub reading: nat,
    pub bytes: nat,
    pub recovered: RecoveredView,
}

impl View for RecoveryRead {
    type V = ReadView;

    closed spec fn view(&self) -> ReadView {
        ReadView {
            covered: self.covered as nat,
            reading: self.reading as nat,
            bytes: self.bytes as nat,
            recovered: self.recovered@,
        }
    }
}

/// Whether a request would read nothing.
pub open spec fn reads_nothing(request: RequestView) -> bool {
    request.keys.len() == 0 || request.columns.len() == 0
}

/// The read of a request before its first statement.
pub open spec fn fresh_read(request: RequestView) -> ReadView {
    ReadView {
        covered: if reads_nothing(request) {
            request.keys.len()
        } else {
            0
        },
        reading: 0,
        bytes: 0,
        recovered: RecoveredView { columns: request.columns, rows: empty_entries(request.keys) },
    }
}

/// The read once its next statement is under way, if there is one.
pub open spec fn next_read(request: RequestView, read: ReadView) -> ReadView {
    ReadView {
        reading: next_keys(request.keys.len(), request.max_recovered_bytes, read.covered, read.bytes),
        ..read
    }
}

impl RecoveryRead {
    /// What is read belongs to the request, and the columns are replicated.
    pub closed spec fn wf(&self, schema: SchemaView, request: RequestView) -> bool {
        &&& self.recovered.wf()
        &&& self.recovered@.columns == request.columns
        &&& self.covered + self.reading <= request.keys.len()
        &&& request.keys.len() <= usize::MAX
        &&& !reads_nothing(request) ==> columns_in_range(schema, request.columns)
        &&& reads_nothing(request) ==> self.covered >= request.keys.len()
    }

    /// Starts the read of a request.
    pub fn new(schema: &ReplicatedTableSchema, request: &PartialUpdateRecoveryRequest) -> (r: Result<
        RecoveryRead,
        EtlError,
    >)
        requires
            request.wf(),
        ensures
            match r {
                Ok(read) => {
                    &&& reads_nothing(request@) || out_of_range(schema@, request@.columns) is None
                    &&& read.wf(schema@, request@)
                    &&& read@ == fresh_read(request@)
                },
                Err(error) => {
                    &&& !reads_nothing(request@)
                    &&& out_of_range(schema@, request@.columns) matches Some(index) && error@
                        == column_range_error(schema@, index)
                },
            },
    {
        let recovered = RecoveredPartialRows::for_request(request);
        let count: usize = request.keys().len();
        assert(request@.keys.len() == count);
        if request.is_empty() {
            return Ok(RecoveryRead { covered: count, reading: 0, bytes: 0, recovered });
        }
        match check_recovery_columns(schema, request.columns()) {
            Err(error) => Err(error),
            Ok(()) => Ok(RecoveryRead { covered: 0, reading: 0, bytes: 0, recovered }),
        }
    }

    /// Returns the next statement, or nothing once the read is over.
    pub fn next_statement(
        &mut self,
        table_name: &DuckLakeTableName,
        schema: &ReplicatedTableSchema,
        request: &PartialUpdateRecoveryRequest,
    ) -> (r: Option<Statement>)
        requires
            old(self).wf(schema@, request@),
            old(self)@.reading == 0,
        ensures
            final(self).wf(schema@, request@),
            final(self)@ == next_read(request@, old(self)@),
            match r {
                None => final(self)@.reading == 0,
                Some(statement) => final(self)@.reading > 0 && statement@ == recovery_statement(
                    table_name@,
                    schema@,
                    request@.columns,
                    request@.keys.subrange(
                        old(self)@.covered as int,
                        (old(self)@.covered + final(self)@.reading) as int,
                    ),
                ),
            },
    {
        let keys = request.keys();
        let total: usize = keys.len();
        assert(request@.keys.len() == total);
        let count: usize = next_key_count(
            total,
            request.max_recovered_bytes(),
            self.covered,
            self.bytes,
        );
        self.reading = count;
        if count == 0 {
            return None;
        }
        let start: usize = self.covered;
        Some(
            build_recovery_statement(
                table_name,
                schema,
                request.columns(),
                keys,
                start,
                start + count,
            ),
        )
    }

    /// Takes in one row of the statement under way.
    pub fn row(
        &mut self,
        schema: &ReplicatedTableSchema,
        request: &PartialUpdateRecoveryRequest,
        values: &Vec<StoredValue>,
    ) -> (r: Result<(), EtlError>)
        requires
            old(self).wf(schema@, request@),
            old(self)@.reading > 0,
        ensures
            final(self).wf(schema@, request@),
            match r {
                Ok(_) => {
                    &&& with_read_row(schema@, old(self)@.recovered, value_views(values@)) == Ok::<
                        RecoveredView,
                        ErrorView,
                    >(final(self)@.recovered)
                    &&& final(self)@.bytes == capped_sum(
                        old(self)@.bytes,
                        read_row_size(
                            schema@,
                            old(self)@.recovered.columns,
                            value_views(values@),
                        ),
                    )
                    &&& final(self)@.covered == old(self)@.covered
                    &&& final(self)@.reading == old(self)@.reading
                },
                Err(error) => {
                    &&& with_read_row(schema@, old(self)@.recovered, value_views(values@)) == Err::<
                        RecoveredView,
                        ErrorView,
                    >(error@)
                    &&& final(self)@ == old(self)@
                },
            },
    {
        match absorb_recovered_row(schema, &mut self.recovered, values) {
            Err(error) => Err(error),
            Ok(bytes) => {
                self.bytes = self.bytes.saturating_add(bytes);
                Ok(())
            },
        }
    }

    /// Takes in that the statement under way is done: its identities are
    /// covered.
    pub fn statement_done(&mut self, schema: &ReplicatedTableSchema, request: &PartialUpdateRecoveryRequest)
        requires
            old(self).wf(schema@, request@),
        ensures
            final(self).wf(schema@, request@),
            final(self)@ == (ReadView {
                covered: old(self)@.covered + old(self)@.reading,
                reading: 0,
                ..old(self)@
            }),
    {
        self.covered = self.covered + self.reading;
        self.reading = 0;
    }

    /// Ends the read.
    pub fn into_outcome(
        self,
        schema: &ReplicatedTableSchema,
        request: &PartialUpdateRecoveryRequest,
    ) -> (r: PartialUpdateRecoveryOutcome)
        requires
            self.wf(schema@, request@),
        ensures
            r.recovered.wf(),
            r.recovered@ == self@.recovered,
            r.covered_keys == self@.covered,
    {
        PartialUpdateRecoveryOutcome { recovered: self.recovered, covered_keys: self.covered }
    }
}

/// A read that is not over reads at least one more identity, and never more than
/// a statement holds or than are left.
pub proof fn law_recovery_makes_progress(total: nat, budget: nat, covered: nat, bytes: nat)
    requires
        covered < total,
        covered == 0 || bytes < budget,
        budget <= usize::MAX,
    ensures
        1 <= next_keys(total, budget, covered, bytes) <= total - covered,
        next_keys(total, budget, covered, bytes) <= RECOVERY_KEY_BATCH_SIZE,
{
}

/// A read stops only when every identity is covered or its budget is used up,
/// and no statement starts once the budget is used up: only its last statement
/// can go over.
pub proof fn law_recovery_stops_at_its_budget(total: nat, budget: nat, covered: nat, bytes: nat)
    requires
        covered <= total,
        budget <= usize::MAX,
    ensures
        next_keys(total, budget, covered, bytes) == 0 ==> covered == total || bytes >= budget,
        next_keys(total, budget, covered, bytes) > 0 ==> covered == 0 || bytes < budget,
{
}

/// How many identities a read covers after that many statements, when every
/// identity has one stored row of `size` bytes.
pub open spec fn covered_after(total: nat, budget: nat, size: nat, statements: nat) -> nat
    decreases statements,
{
    if statements == 0 {
        0
    } else {
        let covered = covered_after(total, budget, size, (statements - 1) as nat);
        covered + next_keys(total, budget, covered, covered * size)
    }
}

/// A statement that starts within the budget goes over it by less than one more
/// row, when every identity has one stored row of `size` bytes.
proof fn lemma_statement_overshoots_by_one_row(total: nat, budget: nat, size: nat, covered: nat)
    requires
        budget < usize::MAX,
        covered == 0 || covered * size < budget,
    ensures
        (covered + next_keys(total, budget, covered, covered * size)) * size <= budget + size,
{
    let bytes = covered * size;
    let count = next_keys(total, budget, covered, bytes);
    if size == 0 {
        assert((covered + count) * size == 0) by (nonlinear_arith)
            requires
                size == 0,
        ;
    } else if covered == 0 {
        assert(bytes == 0) by (nonlinear_arith)
            requires
                covered == 0,
                bytes == covered * size,
        ;
        assert(count <= 1);
        assert((covered + count) * size <= budget + size) by (nonlinear_arith)
            requires
                covered == 0,
                count <= 1,
        ;
    } else {
        assert(bytes > 0 && bytes / covered == size && bytes % covered == 0) by (nonlinear_arith)
            requires
                covered > 0,
                size > 0,
                bytes == covered * size,
        ;
        let fitting = (budget - bytes) as nat / size;
        assert(fitting * size <= budget - bytes) by (nonlinear_arith)
            requires
                size > 0,
                bytes < budget,
                fitting == (budget - bytes) as nat / size,
        ;
        assert(count <= 1 || count <= fitting);
        assert((covered + count) * size <= budget + size) by (nonlinear_arith)
            requires
                count <= 1 || count <= fitting,
                fitting * size <= budget - bytes,
                bytes == covered * size,
                bytes < budget,
                size > 0,
        ;
    }
}

/// A read overshoots its budget by one row at most, when every identity has one
/// stored row of `size` bytes, however many statements it takes. A read whose
/// budget is the largest there is has no budget.
pub proof fn law_recovery_overshoots_by_one_row(
    total: nat,
    budget: nat,
    size: nat,
    statements: nat,
)
    requires
        budget < usize::MAX,
    ensures
        covered_after(total, budget, size, statements) * size <= budget + size,
        ({
            let covered = covered_after(total, budget, size, statements);
            (covered + next_keys(total, budget, covered, covered * size)) * size <= budget + size
        }),
    decreases statements,
{
    let covered = covered_after(total, budget, size, statements);
    if statements > 0 {
        law_recovery_overshoots_by_one_row(total, budget, size, (statements - 1) as nat);
    } else {
        assert(0 * size == 0) by (nonlinear_arith);
    }
    if covered == 0 || covered * size < budget {
        lemma_statement_overshoots_by_one_row(total, budget, size, covered);
    }
}

/// What was recovered once rows were read, in order.
pub open spec fn with_read_rows(
    schema: SchemaView,
    recovered: RecoveredView,
    rows: Seq<Seq<StoredView>>,
) -> Result<RecoveredView, ErrorView>
    decreases rows.len(),
{
    if rows.len() == 0 {
        Ok(recovered)
    } else {
        match with_read_rows(schema, recovered, rows.drop_last()) {
            Err(error) => Err(error),
            Ok(earlier) => with_read_row(schema, earlier, rows.last()),
        }
    }
}

/// The cells of a stored row that a recovery statement reads.
pub open spec fn cells_read(
    schema: SchemaView,
    columns: Seq<usize>,
    row: Seq<CellView>,
) -> Seq<CellView> {
    identity_indexes(schema.columns).map_values(|i: int| row[i]) + projected(row, columns)
}

/// Rows that read back as stored rows are recovered under the identities of
/// those rows: each requested identity carries the recovered columns of exactly
/// its rows, in the order they were read.
pub proof fn law_read_rows_are_recovered(
    schema: SchemaView,
    columns: Seq<usize>,
    keys: Seq<RecoveryKeyView>,
    rows: Seq<Seq<StoredView>>,
    stored: Seq<Seq<CellView>>,
)
    requires
        identity_columns(schema).len() > 0,
        rows.len() == stored.len(),
        forall|i: int| 0 <= i < stored.len() ==> (#[trigger] stored[i]).len() == schema.columns.len(),
        forall|i: int|
            0 <= i < rows.len() ==> read_cells(read_columns(schema, columns), #[trigger] rows[i])
                == Ok::<Seq<CellView>, ErrorView>(cells_read(schema, columns, stored[i])),
    ensures
        with_read_rows(
            schema,
            (RecoveredView { columns, rows: empty_entries(keys) }),
            rows,
        ) matches Ok(recovered) && {
            &&& recovered.columns == columns
            &&& recovered.rows.dom() == empty_entries(keys).dom()
            &&& forall|p: Seq<char>|
                is_requested(keys, p) ==> #[trigger] recovered.rows[p] == rewritten(
                    stored,
                    reading(schema, p, columns),
                )
        },
    decreases rows.len(),
{
    let fresh = RecoveredView { columns, rows: empty_entries(keys) };
    if rows.len() > 0 {
        let earlier_rows = rows.drop_last();
        let earlier_stored = stored.drop_last();
        assert forall|i: int| 0 <= i < earlier_rows.len() implies read_cells(
            read_columns(schema, columns),
            #[trigger] earlier_rows[i],
        ) == Ok::<Seq<CellView>, ErrorView>(cells_read(schema, columns, earlier_stored[i])) by {
            assert(earlier_rows[i] == rows[i]);
            assert(earlier_stored[i] == stored[i]);
        }
        assert forall|i: int| 0 <= i < earlier_stored.len() implies (
        #[trigger] earlier_stored[i]).len() == schema.columns.len() by {
            assert(earlier_stored[i] == stored[i]);
        }
        law_read_rows_are_recovered(schema, columns, keys, earlier_rows, earlier_stored);
        let earlier = with_read_rows(schema, fresh, earlier_rows)->Ok_0;
        let last = stored.last();
        let cells = cells_read(schema, columns, last);
        assert(rows[rows.len() - 1] == rows.last());
        assert(stored[stored.len() - 1] == last);
        assert(with_read_row(schema, earlier, rows.last()) == Ok::<RecoveredView, ErrorView>(
            with_read_cells(schema, earlier, cells),
        ));
        let lead = identity_columns(schema).len() as int;
        let own = identity_indexes(schema.columns).map_values(|i: int| last[i]);
        assert(cells.take(lead) =~= own);
        assert(cells.skip(lead) =~= projected(last, columns));
        let predicate = identity_text(identity_columns(schema), own);
        let now = with_read_cells(schema, earlier, cells);
        assert forall|p: Seq<char>| is_requested(keys, p) implies #[trigger] now.rows[p]
            == rewritten(stored, reading(schema, p, columns)) by {
            let read = reading(schema, p, columns);
            assert(stored =~= earlier_stored.push(last));
            lemma_rewritten_push(earlier_stored, last, read);
            assert(is_at(schema, Some(last), p) <==> p == predicate);
            assert(earlier.rows.dom().contains(p));
            assert(earlier.rows[p] == rewritten(earlier_stored, read));
        }
        assert(now.rows.dom() =~= empty_entries(keys).dom());
    } else {
        assert forall|p: Seq<char>| is_requested(keys, p) implies #[trigger] fresh.rows[p]
            == rewritten(stored, reading(schema, p, columns)) by {
            assert(rewritten(stored, reading(schema, p, columns)) =~= Seq::empty());
        }
    }
}

/// Keeps the rows whose identity is among keys.
pub open spec fn requested_rows(schema: SchemaView, keys: Seq<RecoveryKeyView>) -> spec_fn(
    Seq<CellView>,
) -> Option<Seq<CellView>> {
    |row: Seq<CellView>|
        if exists|k: int|
            0 <= k < keys.len() && is_at(schema, Some(row), (#[trigger] keys[k]).predicate) {
            Some(row)
        } else {
            None
        }
}

/// A read whose statements hand back exactly the stored rows of the identities
/// they cover, in any order, recovers what the table stores of those
/// identities.
pub proof fn law_recovery_reads_what_is_stored(
    schema: SchemaView,
    table: Seq<Seq<CellView>>,
    columns: Seq<usize>,
    keys: Seq<RecoveryKeyView>,
    covered: int,
    rows: Seq<Seq<StoredView>>,
    stored: Seq<Seq<CellView>>,
)
    requires
        identity_columns(schema).len() > 0,
        strictly_ascending(columns),
        columns_in_range(schema, columns),
        0 <= covered <= keys.len(),
        same_items(stored, rewritten(table, requested_rows(schema, keys.take(covered)))),
        rows.len() == stored.len(),
        forall|i: int| 0 <= i < stored.len() ==> (#[trigger] stored[i]).len() == schema.columns.len(),
        forall|i: int|
            0 <= i < rows.len() ==> read_cells(read_columns(schema, columns), #[trigger] rows[i])
                == Ok::<Seq<CellView>, ErrorView>(cells_read(schema, columns, stored[i])),
    ensures
        with_read_rows(
            schema,
            (RecoveredView { columns, rows: empty_entries(keys) }),
            rows,
        ) matches Ok(recovered) && recovered_from(
            schema,
            table,
            recovered,
            Set::new(|p: Seq<char>| is_requested(keys.take(covered), p)),
        ),
{
    law_read_rows_are_recovered(schema, columns, keys, rows, stored);
    let fresh = RecoveredView { columns, rows: empty_entries(keys) };
    let recovered = with_read_rows(schema, fresh, rows)->Ok_0;
    let head = keys.take(covered);
    let keep = requested_rows(schema, head);
    assert forall|p: Seq<char>|
        recovered.rows.dom().contains(p) && is_requested(head, p) implies same_items(
        #[trigger] recovered.rows[p],
        rewritten(table, reading(schema, p, columns)),
    ) by {
        let read = reading(schema, p, columns);
        lemma_rewritten_same(stored, rewritten(table, keep), read);
        let k = choose|k: int| 0 <= k < head.len() && (#[trigger] head[k]).predicate == p;
        assert(head[k] == keys[k]);
        assert(is_requested(keys, p));
        assert forall|i: int| 0 <= i < table.len() implies read(#[trigger] table[i]) == (match keep(
            table[i],
        ) {
            None => None,
            Some(middle) => read(middle),
        }) by {
            if is_at(schema, Some(table[i]), p) {
                assert(is_at(schema, Some(table[i]), head[k].predicate));
            }
        }
        lemma_rewritten_compose(table, keep, read, read);
    }
}

/// A statement reads as many identities as fit into what is left of the budget, going
/// by the average size of those that were read: never so many that they would go over
/// it, unless it is a single one, and never so few that one more would surely fit,
/// unless no more are left or the statement is full. The first statement reads one
/// identity. What has no size yet, or no budget, is read by full statements.
pub proof fn law_statements_fill_the_budget(total: nat, budget: nat, covered: nat, bytes: nat)
    requires
        covered < total,
        covered == 0 || bytes < budget,
        budget <= usize::MAX,
    ensures
        ({
            let count = next_keys(total, budget, covered, bytes);
            let full = if total - covered < 1024 {
                total - covered
            } else {
                1024
            };
            &&& 1 <= count <= full
            &&& budget == usize::MAX ==> count == full
            &&& budget < usize::MAX && covered == 0 ==> count == 1
            &&& budget < usize::MAX && covered > 0 && bytes == 0 ==> count == full
            &&& budget < usize::MAX && covered > 0 && bytes > 0 ==> {
                &&& count == 1 || count * bytes <= (budget - bytes) * covered
                &&& count == full || (count + 1) * (bytes + covered - 1) > (budget - bytes)
                    * covered
            }
        }),
{
    let count = next_keys(total, budget, covered, bytes);
    if budget < usize::MAX && covered > 0 && bytes > 0 {
        let each = bytes / covered + if bytes % covered == 0 {
            0nat
        } else {
            1nat
        };
        let rest = (budget - bytes) as nat;
        let fitting = rest / each;
        assert(each * covered >= bytes && each * covered <= bytes + covered - 1 && each >= 1)
            by (nonlinear_arith)
            requires
                covered > 0,
                bytes > 0,
                each == bytes / covered + if bytes % covered == 0 {
                    0nat
                } else {
                    1nat
                },
        ;
        assert(fitting * each <= rest && (fitting + 1) * each > rest) by (nonlinear_arith)
            requires
                each >= 1,
                fitting == rest / each,
        ;
        assert(count == 1 || count <= fitting);
        if count > 1 {
            assert(count * bytes <= rest * covered) by (nonlinear_arith)
                requires
                    count <= fitting,
                    fitting * each <= rest,
                    each * covered >= bytes,
                    covered > 0,
            ;
        }
        if count < total - covered && count < 1024 {
            assert(count >= fitting);
            assert((count + 1) * (bytes + covered - 1) > rest * covered) by (nonlinear_arith)
                requires
                    count >= fitting,
                    (fitting + 1) * each > rest,
                    each * covered <= bytes + covered - 1,
                    covered > 0,
            ;
        }
    }
}

/// The first requested column that the table does not have fails the read, and nothing
/// else of the columns does.
pub proof fn law_first_column_out_of_range_fails(schema: SchemaView, columns: Seq<usize>)
    ensures
        match out_of_range(schema, columns) {
            None => forall|k: int|
                0 <= k < columns.len() ==> #[trigger] columns[k] < schema.columns.len(),
            Some(index) => exists|k: int|
                {
                    &&& 0 <= k < columns.len()
                    &&& #[trigger] columns[k] == index
                    &&& index >= schema.columns.len()
                    &&& forall|j: int| 0 <= j < k ==> #[trigger] columns[j] < schema.columns.len()
                },
        },
    decreases columns.len(),
{
    if columns.len() > 0 {
        let shorter = columns.drop_last();
        let last = columns.len() - 1;
        law_first_column_out_of_range_fails(schema, shorter);
        assert forall|k: int| 0 <= k < last implies #[trigger] columns[k] == shorter[k] by {}
        match out_of_range(schema, shorter) {
            None => {
                assert(columns[last] == columns.last());
                assert forall|j: int| 0 <= j < last implies #[trigger] columns[j]
                    < schema.columns.len() by {
                    assert(shorter[j] < schema.columns.len());
                }
            },
            Some(index) => {
                let k = choose|k: int|
                    {
                        &&& 0 <= k < shorter.len()
                        &&& #[trigger] shorter[k] == index
                        &&& index >= schema.columns.len()
                        &&& forall|j: int|
                            0 <= j < k ==> #[trigger] shorter[j] < schema.columns.len()
                    };
                assert(columns[k] == index);
                assert forall|j: int| 0 <= j < k implies #[trigger] columns[j]
                    < schema.columns.len() by {
                    assert(shorter[j] < schema.columns.len());
                }
            },
        }
    }
}

/// A recovery statement reads the identity columns of the table, in column order, and
/// the requested columns behind them, in the order requested, each by the expression
/// that reads it back.
pub proof fn law_recovery_reads_identities_in_front(
    table: TableNameView,
    name: Seq<char>,
    columns: Seq<ColumnSchema>,
    requested: Seq<usize>,
    keys: Seq<RecoveryKeyView>,
)
    requires
        forall|k: int| 0 <= k < requested.len() ==> #[trigger] requested[k] < columns.len(),
    ensures
        ({
            let schema = SchemaView { name, columns: column_views(columns) };
            let positions = identity_positions(columns);
            exists|expressions: Seq<Seq<char>>|
                {
                    &&& recovery_statement(table, schema, requested, keys).sql == "SELECT "@
                        + #[trigger] joined(expressions, ", "@) + " FROM "@ + lake_table(table)
                        + " AS cdc_target"@ + join_clause(
                        identity_column_names(schema),
                        key_components(keys),
                    ) + ";"@
                    &&& expressions.len() == positions.len() + requested.len()
                    &&& forall|k: int|
                        0 <= k < positions.len() ==> #[trigger] expressions[k]
                            == read_expression_of(columns[positions[k]]@)
                    &&& forall|k: int|
                        0 <= k < requested.len() ==> expressions[positions.len() + k]
                            == read_expression_of(columns[#[trigger] requested[k] as int]@)
                }
        }),
{
    let schema = SchemaView { name, columns: column_views(columns) };
    let positions = identity_positions(columns);
    law_identity_indexes_are_the_identity_columns(columns);
    lemma_identity_indexes(schema.columns);
    let expressions = read_expressions(read_columns(schema, requested));
    assert forall|k: int| 0 <= k < positions.len() implies #[trigger] expressions[k]
        == read_expression_of(columns[positions[k]]@) by {
        assert(read_columns(schema, requested)[k] == identity_columns(schema)[k]);
    }
    assert forall|k: int| 0 <= k < requested.len() implies expressions[positions.len() + k]
        == read_expression_of(columns[#[trigger] requested[k] as int]@) by {
        assert(read_columns(schema, requested)[positions.len() + k] == columns_at(
            schema,
            requested,
        )[k]);
    }
    assert(recovery_statement(table, schema, requested, keys).sql == "SELECT "@ + joined(
        expressions,
        ", "@,
    ) + " FROM "@ + lake_table(table) + " AS cdc_target"@ + join_clause(
        identity_column_names(schema),
        key_components(keys),
    ) + ";"@);
}

/// A row that was read converts value by value, each one as its own column does, and
/// fails where a value is missing or one does not convert.
pub proof fn law_read_row_converts_by_column(
    columns: Seq<ColumnSchema>,
    values: Seq<StoredValue>,
)
    ensures
        match read_cells(column_views(columns), value_views(values)) {
            Ok(cells) => values.len() >= columns.len() && cells.len() == columns.len() && forall|
                k: int,
            |
                0 <= k < columns.len() ==> stored_cell(
                    columns[k].column_type.kind,
                    columns[k].column_type.is_array,
                    columns[k].column_type.name@,
                    values[k]@,
                ) == Ok::<CellView, ErrorView>(#[trigger] cells[k]),
            Err(_) => values.len() < columns.len() || exists|k: int|
                0 <= k < columns.len() && #[trigger] stored_cell(
                    columns[k].column_type.kind,
                    columns[k].column_type.is_array,
                    columns[k].column_type.name@,
                    values[k]@,
                ) is Err,
        },
{
    let views = column_views(columns);
    let stored = value_views(values);
    let step = |k: int| read_cell(views, stored, k);
    lemma_collect(columns.len(), step);
    assert(read_cells(views, stored) == collect(columns.len(), step));
    assert forall|k: int| 0 <= k < columns.len() implies #[trigger] step(k) == (if k
        < values.len() {
        stored_cell(
            columns[k].column_type.kind,
            columns[k].column_type.is_array,
            columns[k].column_type.name@,
            values[k]@,
        )
    } else {
        Err(missing_value_error())
    }) by {}
    if read_cells(views, stored) is Ok && values.len() < columns.len() {
        assert(step(values.len() as int) is Ok);
    }
    if read_cells(views, stored) is Ok {
        let cells = read_cells(views, stored)->Ok_0;
        assert forall|k: int| 0 <= k < columns.len() implies stored_cell(
            columns[k].column_type.kind,
            columns[k].column_type.is_array,
            columns[k].column_type.name@,
            values[k]@,
        ) == Ok::<CellView, ErrorView>(#[trigger] cells[k]) by {
            assert(step(k) == Ok::<CellView, ErrorView>(cells[k]));
        }
    }
}

/// The size of a row that was read counts every value of the columns that were asked for,
/// up to the largest machine size; the identity in front of them is not counted.
pub proof fn law_read_row_size_counts_the_requested_values(
    name: Seq<char>,
    columns: Seq<ColumnSchema>,
    requested: Seq<usize>,
    values: Seq<StoredView>,
    cells: Seq<Cell>,
)
    requires
        read_cells(
            read_columns(SchemaView { name, columns: column_views(columns) }, requested),
            values,
        ) == Ok::<Seq<CellView>, ErrorView>(cell_views(cells)),
        identity_positions(columns).len() <= cells.len(),
    ensures
        read_row_size(
            SchemaView { name, columns: column_views(columns) },
            requested,
            values,
        ) == at_most_machine(cell_bytes(cells.skip(identity_positions(columns).len() as int))),
{
    let schema = SchemaView { name, columns: column_views(columns) };
    let lead = identity_positions(columns).len() as int;
    law_identity_indexes_are_the_identity_columns(columns);
    assert(cell_views(cells).skip(lead) =~= cell_views(cells.skip(lead)));
    law_cells_size_counts_every_value(cells.skip(lead));
}

/// A read without identities, or without columns, covers what was asked for at once; any
/// other one starts with nothing covered. It recovers the requested columns, and starts
/// with no row for every requested identity.
pub proof fn law_reads_start_with_nothing_read(request: RequestView)
    ensures
        ({
            let fresh = fresh_read(request);
            &&& request.keys.len() == 0 || request.columns.len() == 0 ==> fresh.covered
                == request.keys.len() && next_read(request, fresh).reading == 0
            &&& request.keys.len() > 0 && request.columns.len() > 0 ==> fresh.covered == 0
                && next_read(request, fresh).reading > 0
            &&& fresh.reading == 0 && fresh.bytes == 0
            &&& fresh.recovered.columns == request.columns
            &&& forall|k: int|
                0 <= k < request.keys.len() ==> fresh.recovered.rows.dom().contains(
                    (#[trigger] request.keys[k]).predicate,
                ) && fresh.recovered.rows[request.keys[k].predicate].len() == 0
            &&& next_read(request, fresh).covered == fresh.covered
            &&& next_read(request, fresh).recovered == fresh.recovered
        }),
{
    let fresh = fresh_read(request);
    assert forall|k: int| 0 <= k < request.keys.len() implies fresh.recovered.rows.dom().contains(
        (#[trigger] request.keys[k]).predicate,
    ) && fresh.recovered.rows[request.keys[k].predicate].len() == 0 by {
        assert(is_requested(request.keys, request.keys[k].predicate));
    }
}

/// Each stage of a recovery has its own failure, and a column out of range is named with
/// how many columns the table has.
pub proof fn law_recovery_failures_name_their_stage(schema: SchemaView, index: usize)
    ensures
        recovery_failure(RecoveryStage::Statement) == "DuckLake partial update recovery failed"@,
        recovery_failure(RecoveryStage::Row)
            == "DuckLake partial update recovery row fetch failed"@,
        recovery_failure(RecoveryStage::Value)
            == "DuckLake partial update recovery value fetch failed"@,
        missing_value_error().kind is DestinationQueryFailed,
        missing_value_error().description == recovery_failure(RecoveryStage::Value),
        column_range_error(schema, index).kind is InvalidState,
        column_range_error(schema, index).detail == Some(
            "Table '"@ + schema.name + "' has "@ + decimal(schema.columns.len())
                + " replicated columns, requested index "@ + decimal(index as nat),
        ),
{
}

} // verus!
