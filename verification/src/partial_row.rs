//! Partial row images: `SET` assignments, patched rows and completed rows.

use vstd::prelude::*;

use crate::collect::{collect, lemma_collect, lemma_collect_fails};
use crate::data::{
    cell_views, index_views, Cell, CellView, PartialRowView, PartialTableRow, TableRow,
};
use crate::error::{detailed_error, ErrorKind, ErrorView, EtlError};
use crate::literal::{cell_literal, cell_to_sql_literal_ref};
use crate::reading::{
    identifier, inside, law_cell_literal_stands_for_its_cell, lemma_inside, reads_as,
};
use crate::schema::{
    column_views, lake_column, law_lake_column_reads_back, ColumnSchema, ColumnView,
    ReplicatedTableSchema, SchemaView,
};
use crate::text::{decimal, decimal_u64, lowered, texts};

verus! {

/// Whether the indexes are strictly ascending and all below `bound`.
pub open spec fn ascending_below(indexes: Seq<int>, bound: int) -> bool {
    &&& forall|k: int| 0 <= k < indexes.len() ==> 0 <= #[trigger] indexes[k] < bound
    &&& forall|j: int, k: int|
        0 <= j < k < indexes.len() ==> #[trigger] indexes[j] < #[trigger] indexes[k]
}

/// The columns below `count` that are not in `missing`, in ascending order.
pub open spec fn present_columns(missing: Seq<int>, count: nat) -> Seq<int>
    decreases count,
{
    if count == 0 {
        Seq::empty()
    } else if missing.contains(count - 1) {
        present_columns(missing, (count - 1) as nat)
    } else {
        present_columns(missing, (count - 1) as nat).push(count - 1)
    }
}

/// The position of column `column` among the present columns.
pub open spec fn present_rank(missing: Seq<int>, column: int) -> int {
    present_columns(missing, column as nat).len() as int
}

/// Of `count` columns, `split` of which are among the ascending missing
/// indexes, the others are present.
pub proof fn lemma_present_count(missing: Seq<int>, count: nat, split: int)
    requires
        forall|j: int, k: int|
            0 <= j < k < missing.len() ==> #[trigger] missing[j] < #[trigger] missing[k],
        forall|k: int| 0 <= k < missing.len() ==> 0 <= #[trigger] missing[k],
        0 <= split <= missing.len(),
        forall|k: int| 0 <= k < split ==> #[trigger] missing[k] < count,
        forall|k: int| split <= k < missing.len() ==> count <= #[trigger] missing[k],
    ensures
        present_columns(missing, count).len() == count - split,
    decreases count,
{
    if count == 0 {
        if split > 0 {
            assert(missing[0] < 0);
        }
    } else if missing.contains(count - 1) {
        let k = choose|k: int| 0 <= k < missing.len() && missing[k] == count - 1;
        assert(k < split);
        if k < split - 1 {
            assert(missing[k] < missing[split - 1]);
            assert(missing[split - 1] < count);
        }
        assert forall|j: int| 0 <= j < split - 1 implies #[trigger] missing[j] < count - 1 by {
            assert(missing[j] < missing[split - 1]);
        }
        lemma_present_count(missing, (count - 1) as nat, split - 1);
    } else {
        assert forall|j: int| 0 <= j < split implies #[trigger] missing[j] < count - 1 by {
            if missing[j] == count - 1 {
                assert(missing.contains(count - 1));
            }
        }
        lemma_present_count(missing, (count - 1) as nat, split);
    }
}

/// Present columns of fewer columns are a prefix of those of more.
pub proof fn lemma_present_prefix(missing: Seq<int>, fewer: nat, more: nat)
    requires
        fewer <= more,
    ensures
        present_columns(missing, fewer).len() <= present_columns(missing, more).len(),
        present_columns(missing, fewer) == present_columns(missing, more).take(
            present_columns(missing, fewer).len() as int,
        ),
    decreases more,
{
    if fewer < more {
        lemma_present_prefix(missing, fewer, (more - 1) as nat);
        let prefix = present_columns(missing, fewer);
        let shorter = present_columns(missing, (more - 1) as nat);
        let longer = present_columns(missing, more);
        assert(longer.take(prefix.len() as int) =~= shorter.take(prefix.len() as int));
    } else {
        let all = present_columns(missing, more);
        assert(all.take(all.len() as int) =~= all);
    }
}

/// Returns whether `indexes` holds `index`.
pub fn contains_index(indexes: &Vec<usize>, index: usize) -> (r: bool)
    ensures
        r == index_views(indexes@).contains(index as int),
{
    let ghost views = index_views(indexes@);
    for k in 0..indexes.len()
        invariant
            views == index_views(indexes@),
            forall|j: int| 0 <= j < k ==> views[j] != index,
    {
        assert(views[k as int] == indexes@[k as int]);
        if indexes[k] == index {
            assert(views.contains(index as int));
            return true;
        }
    }
    false
}

/// Finds `index` among strictly ascending indexes.
pub fn find_index(indexes: &Vec<usize>, index: usize) -> (r: Option<usize>)
    requires
        forall|j: int, k: int|
            0 <= j < k < indexes@.len() ==> #[trigger] indexes@[j] < #[trigger] indexes@[k],
    ensures
        match r {
            Some(k) => k < indexes@.len() && indexes@[k as int] == index,
            None => !index_views(indexes@).contains(index as int),
        },
{
    let mut low: usize = 0;
    let mut high: usize = indexes.len();
    while low < high
        invariant
            low <= high <= indexes@.len(),
            forall|j: int, k: int|
                0 <= j < k < indexes@.len() ==> #[trigger] indexes@[j] < #[trigger] indexes@[k],
            forall|k: int| 0 <= k < low ==> #[trigger] indexes@[k] < index,
            forall|k: int| high <= k < indexes@.len() ==> index < #[trigger] indexes@[k],
        decreases high - low,
    {
        let middle: usize = low + (high - low) / 2;
        if indexes[middle] == index {
            return Some(middle);
        } else if indexes[middle] < index {
            low = middle + 1;
        } else {
            high = middle;
        }
    }
    proof {
        let views = index_views(indexes@);
        assert forall|k: int| 0 <= k < views.len() implies views[k] != index by {
            assert(views[k] == indexes@[k]);
        }
    }
    None
}

/// The error of a partial row that runs out of values.
pub open spec fn ended_early_error(schema: SchemaView) -> ErrorView {
    detailed_error(
        ErrorKind::InvalidState,
        "DuckLake partial update row ended early"@,
        "Table '"@ + schema.name + "' did not provide enough values for its partial update row"@,
    )
}

fn ended_early(schema: &ReplicatedTableSchema) -> (r: EtlError)
    ensures
        r@ == ended_early_error(schema@),
{
    let mut detail = "Table '".to_owned();
    detail.append(schema.name());
    detail.append("' did not provide enough values for its partial update row");
    EtlError::with_detail(
        ErrorKind::InvalidState,
        "DuckLake partial update row ended early",
        detail,
    )
}

/// The error of a partial row for another number of columns.
pub open spec fn partial_width_error(schema: SchemaView, total: nat) -> ErrorView {
    detailed_error(
        ErrorKind::InvalidState,
        "DuckLake partial update row does not match schema"@,
        "Expected "@ + decimal(schema.columns.len()) + " replicated columns for table '"@
            + schema.name + "', got "@ + decimal(total),
    )
}

/// The error of a partial row without values.
pub open spec fn no_assignments_error(schema: SchemaView) -> ErrorView {
    detailed_error(
        ErrorKind::InvalidState,
        "DuckLake partial update row has no assignments"@,
        "Table '"@ + schema.name + "' emitted an empty partial update row"@,
    )
}

/// The error of a partial row whose present and missing columns do not add up.
pub open spec fn partial_shape_error(schema: SchemaView, row: PartialRowView) -> ErrorView {
    detailed_error(
        ErrorKind::InvalidState,
        "DuckLake partial update row shape is inconsistent"@,
        "Table '"@ + schema.name + "' partial row reports "@ + decimal(row.total)
            + " total columns but has "@ + decimal(row.values.len()) + " present and "@ + decimal(
            row.missing.len(),
        ) + " missing"@,
    )
}

/// One `SET` assignment.
pub open spec fn assignment_text(column: ColumnView, cell: CellView) -> Seq<char> {
    lake_column(column) + " = "@ + cell_literal(cell)
}

/// The `SET` assignments of the first `count` values of a partial row.
pub open spec fn assignment_texts(
    columns: Seq<ColumnView>,
    row: PartialRowView,
    count: nat,
) -> Seq<Seq<char>> {
    Seq::new(
        count,
        |k: int|
            assignment_text(
                columns[present_columns(row.missing, columns.len())[k]],
                row.values[k],
            ),
    )
}

/// Whether a partial row fits a table of `width` columns: it is for that many
/// columns, its missing indexes ascend below that width, and it carries a value
/// for each of the others.
pub open spec fn partial_fits(row: PartialRowView, width: nat) -> bool {
    &&& row.total == width
    &&& ascending_below(row.missing, width as int)
    &&& row.values.len() + row.missing.len() == width
}

/// The `SET` assignments of a partial row: one for each present column.
pub open spec fn partial_assignments(schema: SchemaView, row: PartialRowView) -> Result<
    Seq<Seq<char>>,
    ErrorView,
> {
    if row.total != schema.columns.len() {
        Err(partial_width_error(schema, row.total))
    } else if row.values.len() == 0 {
        Err(no_assignments_error(schema))
    } else if row.values.len() + row.missing.len() != row.total {
        Err(partial_shape_error(schema, row))
    } else if !ascending_below(row.missing, row.total as int) {
        Err(ended_early_error(schema))
    } else {
        Ok(assignment_texts(schema.columns, row, row.values.len()))
    }
}

/// Builds the `SET` assignments of a partial row.
pub fn update_assignments_from_partial_row(
    schema: &ReplicatedTableSchema,
    partial: &PartialTableRow,
) -> (r: Result<Vec<String>, EtlError>)
    ensures
        match r {
            Ok(assignments) => partial_assignments(schema@, partial@) == Ok::<
                Seq<Seq<char>>,
                ErrorView,
            >(texts(assignments@)),
            Err(error) => partial_assignments(schema@, partial@) == Err::<
                Seq<Seq<char>>,
                ErrorView,
            >(error@),
        },
{
    let columns = schema.column_schemas();
    let values = &partial.row.values;
    let missing = &partial.missing;
    assert(schema@.columns.len() == columns@.len());
    if partial.total_columns != columns.len() {
        let mut detail = "Expected ".to_owned();
        detail.append(decimal_u64(columns.len() as u64).as_str());
        detail.append(" replicated columns for table '");
        detail.append(schema.name());
        detail.append("', got ");
        detail.append(decimal_u64(partial.total_columns as u64).as_str());
        return Err(
            EtlError::with_detail(
                ErrorKind::InvalidState,
                "DuckLake partial update row does not match schema",
                detail,
            ),
        );
    }
    if values.len() == 0 {
        let mut detail = "Table '".to_owned();
        detail.append(schema.name());
        detail.append("' emitted an empty partial update row");
        return Err(
            EtlError::with_detail(
                ErrorKind::InvalidState,
                "DuckLake partial update row has no assignments",
                detail,
            ),
        );
    }
    if values.len() > partial.total_columns || partial.total_columns - values.len()
        != missing.len() {
        let mut detail = "Table '".to_owned();
        detail.append(schema.name());
        detail.append("' partial row reports ");
        detail.append(decimal_u64(partial.total_columns as u64).as_str());
        detail.append(" total columns but has ");
        detail.append(decimal_u64(values.len() as u64).as_str());
        detail.append(" present and ");
        detail.append(decimal_u64(missing.len() as u64).as_str());
        detail.append(" missing");
        return Err(
            EtlError::with_detail(
                ErrorKind::InvalidState,
                "DuckLake partial update row shape is inconsistent",
                detail,
            ),
        );
    }
    let ghost gaps = partial@.missing;
    let ghost width = columns@.len();
    let ghost present = present_columns(gaps, width);
    let ghost sound = ascending_below(gaps, width as int);
    let mut assignments: Vec<String> = Vec::new();
    let mut skipped: usize = 0;
    proof {
        if sound {
            lemma_present_count(gaps, width, gaps.len() as int);
        }
    }
    for index in 0..columns.len()
        invariant
            width == columns@.len(),
            column_views(columns@) == schema@.columns,
            values == &partial.row.values,
            missing == &partial.missing,
            gaps == partial@.missing,
            gaps == index_views(missing@),
            present == present_columns(gaps, width),
            sound == ascending_below(gaps, width as int),
            sound ==> present.len() == width - gaps.len(),
            partial@.total == width,
            values@.len() > 0,
            values@.len() + missing@.len() == width,
            skipped <= missing@.len(),
            skipped <= index,
            assignments@.len() == index - skipped,
            assignments@.len() <= values@.len(),
            ascending_below(gaps.take(skipped as int), index as int),
            sound ==> forall|k: int| skipped <= k < gaps.len() ==> index <= #[trigger] gaps[k],
            forall|k: int|
                0 <= k < assignments@.len() && sound ==> (#[trigger] assignments@[k])@
                    == assignment_text(schema@.columns[present[k]], partial@.values[k]),
    {
        assert(schema@.columns[index as int] == columns@[index as int]@);
        let ghost prefix = gaps.take(skipped as int);
        proof {
            if sound {
                assert forall|k: int| 0 <= k < skipped implies #[trigger] gaps[k] < index by {
                    assert(prefix[k] == gaps[k]);
                }
                lemma_present_count(gaps, index as nat, skipped as int);
                lemma_present_prefix(gaps, (index + 1) as nat, width);
                lemma_present_prefix(gaps, index as nat, width);
            }
        }
        if skipped < missing.len() && missing[skipped] == index {
            assert(gaps[skipped as int] == index);
            let ghost grown = gaps.take(skipped + 1);
            proof {
                assert(grown =~= prefix.push(index as int));
                assert forall|j: int, k: int| 0 <= j < k < grown.len() implies #[trigger] grown[j]
                    < #[trigger] grown[k] by {
                    if k == skipped {
                        assert(prefix[j] < index);
                    } else {
                        assert(prefix[j] < prefix[k]);
                    }
                }
                assert forall|k: int| 0 <= k < grown.len() implies 0 <= #[trigger] grown[k] < index
                    + 1 by {
                    if k < skipped {
                        assert(prefix[k] < index);
                    }
                }
            }
            skipped = skipped + 1;
        } else {
            proof {
                if sound {
                    if gaps.contains(index as int) {
                        let k = choose|k: int| 0 <= k < gaps.len() && gaps[k] == index;
                        if k < skipped {
                            assert(prefix[k] == gaps[k]);
                        } else if k > skipped {
                            assert(gaps[skipped as int] < gaps[k]);
                        }
                        assert(false);
                    }
                    assert(present_columns(gaps, (index + 1) as nat).last() == index);
                    assert(present_columns(gaps, (index + 1) as nat).len() == index - skipped + 1);
                    let rank = index - skipped;
                    assert(present_columns(gaps, (index + 1) as nat)[rank] == index);
                    assert(present[rank] == index);
                }
                assert forall|k: int| 0 <= k < prefix.len() implies 0 <= #[trigger] prefix[k] < index
                    + 1 by {}
            }
            if assignments.len() >= values.len() {
                return Err(ended_early(schema));
            }
            let value = &values[assignments.len()];
            assert(partial@.values[assignments@.len() as int] == value@);
            let mut text = columns[index].lake_name();
            text.append(" = ");
            text.append(cell_to_sql_literal_ref(value).as_str());
            assignments.push(text);
            proof {
                if sound {
                    assert forall|k: int| skipped <= k < gaps.len() implies index + 1 <= #[trigger] gaps[k] by {
                        assert(gaps[k] != index) by {
                            if gaps[k] == index {
                                assert(gaps.contains(index as int));
                            }
                        }
                    }
                }
            }
        }
    }
    proof {
        assert(gaps.take(gaps.len() as int) =~= gaps);
        assert(texts(assignments@) =~= assignment_texts(
            schema@.columns,
            partial@,
            partial@.values.len(),
        ));
    }
    Ok(assignments)
}

/// Whether a partial row has a value for each column of `width` that it does
/// not leave out.
pub open spec fn patchable(row: PartialRowView, width: nat) -> bool {
    forall|c: int|
        0 <= c < width && !#[trigger] row.missing.contains(c) ==> present_rank(row.missing, c)
            < row.values.len()
}

/// A row with the present values of a partial row written over it.
pub open spec fn patched_row(partial: PartialRowView, row: Seq<CellView>) -> Seq<CellView> {
    Seq::new(
        row.len(),
        |c: int|
            if partial.missing.contains(c) {
                row[c]
            } else {
                partial.values[present_rank(partial.missing, c)]
            },
    )
}

/// Writes the present values of a partial row over a row.
pub open spec fn patched(
    schema: SchemaView,
    partial: PartialRowView,
    row: Seq<CellView>,
) -> Result<Seq<CellView>, ErrorView> {
    if patchable(partial, row.len()) {
        Ok(patched_row(partial, row))
    } else {
        Err(ended_early_error(schema))
    }
}

/// A partial row that fits a table patches every row of that width.
pub proof fn lemma_fitting_row_patches(partial: PartialRowView, width: nat)
    requires
        partial_fits(partial, width),
    ensures
        patchable(partial, width),
{
    let missing = partial.missing;
    lemma_present_count(missing, width, missing.len() as int);
    assert forall|c: int| 0 <= c < width && !#[trigger] missing.contains(c) implies present_rank(
        missing,
        c,
    ) < partial.values.len() by {
        lemma_present_prefix(missing, (c + 1) as nat, width);
        assert(present_columns(missing, (c + 1) as nat).len() == present_columns(
            missing,
            c as nat,
        ).len() + 1);
    }
}

/// Writes the present values of a partial row over a row.
pub fn patch_row(
    schema: &ReplicatedTableSchema,
    partial: &PartialTableRow,
    row: TableRow,
) -> (r: Result<TableRow, EtlError>)
    ensures
        match r {
            Ok(updated) => patched(schema@, partial@, row@) == Ok::<Seq<CellView>, ErrorView>(
                updated@,
            ),
            Err(error) => patched(schema@, partial@, row@) == Err::<Seq<CellView>, ErrorView>(
                error@,
            ),
        },
{
    let ghost before = row@;
    let ghost gaps = partial@.missing;
    let mut values = row.values;
    let width: usize = values.len();
    let mut used: usize = 0;
    for column in 0..width
        invariant
            before == row@,
            width == before.len(),
            values@.len() == width,
            gaps == partial@.missing,
            gaps == index_views(partial.missing@),
            used == present_columns(gaps, column as nat).len(),
            used <= partial.row.values@.len(),
            forall|c: int|
                0 <= c < column && !#[trigger] gaps.contains(c) ==> present_rank(gaps, c)
                    < partial@.values.len(),
            forall|c: int|
                0 <= c < column ==> (#[trigger] values@[c])@ == patched_row(partial@, before)[c],
            forall|c: int| column <= c < width ==> (#[trigger] values@[c])@ == before[c],
    {
        if !contains_index(&partial.missing, column) {
            if used >= partial.row.values.len() {
                assert(!gaps.contains(column as int));
                assert(present_rank(gaps, column as int) >= partial@.values.len());
                return Err(ended_early(schema));
            }
            assert(partial@.values[used as int] == partial.row.values@[used as int]@);
            values[column] = partial.row.values[used].clone();
            used = used + 1;
        }
    }
    assert(cell_views(values@) =~= patched_row(partial@, before));
    Ok(TableRow { values })
}

/// The error of a recovered row without a column that a partial row leaves out.
pub open spec fn missing_column_error(schema: SchemaView, column: nat) -> ErrorView {
    detailed_error(
        ErrorKind::InvalidState,
        "DuckLake partial update recovery is missing a column"@,
        "Table '"@ + schema.name + "' did not read back replicated column "@ + decimal(column),
    )
}

/// One column of a completed row: the present value, or the recovered one.
pub open spec fn completed_cell(
    schema: SchemaView,
    partial: PartialRowView,
    columns: Seq<int>,
    stored: Seq<CellView>,
    column: int,
) -> Result<CellView, ErrorView> {
    if partial.missing.contains(column) {
        if columns.contains(column) && columns.index_of(column) < stored.len() {
            Ok(stored[columns.index_of(column)])
        } else {
            Err(missing_column_error(schema, column as nat))
        }
    } else if present_rank(partial.missing, column) < partial.values.len() {
        Ok(partial.values[present_rank(partial.missing, column)])
    } else {
        Err(ended_early_error(schema))
    }
}

/// A partial row with the columns it leaves out taken from a recovered row,
/// whose values are those of the ascending `columns`.
pub open spec fn completed(
    schema: SchemaView,
    partial: PartialRowView,
    columns: Seq<int>,
    stored: Seq<CellView>,
) -> Result<Seq<CellView>, ErrorView> {
    collect(partial.total, |c: int| completed_cell(schema, partial, columns, stored, c))
}

/// Completes a partial row from the stored values of one recovered row.
pub fn complete_partial_row(
    schema: &ReplicatedTableSchema,
    partial: &PartialTableRow,
    columns: &Vec<usize>,
    stored: &Vec<Cell>,
) -> (r: Result<TableRow, EtlError>)
    requires
        forall|j: int, k: int|
            0 <= j < k < columns@.len() ==> #[trigger] columns@[j] < #[trigger] columns@[k],
    ensures
        match r {
            Ok(row) => completed(schema@, partial@, index_views(columns@), cell_views(stored@))
                == Ok::<Seq<CellView>, ErrorView>(row@),
            Err(error) => completed(schema@, partial@, index_views(columns@), cell_views(stored@))
                == Err::<Seq<CellView>, ErrorView>(error@),
        },
{
    let ghost gaps = partial@.missing;
    let ghost positions = index_views(columns@);
    let ghost kept = cell_views(stored@);
    let ghost step = |c: int| completed_cell(schema@, partial@, positions, kept, c);
    let mut values: Vec<Cell> = Vec::new();
    let mut used: usize = 0;
    assert(cell_views(values@) =~= Seq::<CellView>::empty());
    for column in 0..partial.total_columns
        invariant
            gaps == partial@.missing,
            gaps == index_views(partial.missing@),
            positions == index_views(columns@),
            kept == cell_views(stored@),
            step == (|c: int| completed_cell(schema@, partial@, positions, kept, c)),
            forall|j: int, k: int|
                0 <= j < k < columns@.len() ==> #[trigger] columns@[j] < #[trigger] columns@[k],
            used == present_columns(gaps, column as nat).len(),
            used <= partial.row.values@.len(),
            collect(column as nat, step) == Ok::<Seq<CellView>, ErrorView>(cell_views(values@)),
    {
        let ghost held = cell_views(values@);
        if !contains_index(&partial.missing, column) {
            if used >= partial.row.values.len() {
                proof {
                    assert(step(column as int) == Err::<CellView, ErrorView>(
                        ended_early_error(schema@),
                    ));
                    lemma_collect_fails((column + 1) as nat, partial@.total, step);
                }
                return Err(ended_early(schema));
            }
            assert(partial@.values[used as int] == partial.row.values@[used as int]@);
            values.push(partial.row.values[used].clone());
            used = used + 1;
        } else {
            let found = match find_index(columns, column) {
                Some(index) => if index < stored.len() {
                    Some(index)
                } else {
                    None
                },
                None => None,
            };
            proof {
                if positions.contains(column as int) {
                    let index = positions.index_of(column as int);
                    assert(positions[index] == column);
                    assert(forall|k: int|
                        0 <= k < columns@.len() && columns@[k] == column ==> k == index);
                }
                if found is Some {
                    assert(positions[found->0 as int] == column);
                    assert(positions.contains(column as int));
                }
            }
            match found {
                Some(index) => {
                    assert(kept[index as int] == stored@[index as int]@);
                    values.push(stored[index].clone());
                },
                None => {
                    let mut detail = "Table '".to_owned();
                    detail.append(schema.name());
                    detail.append("' did not read back replicated column ");
                    detail.append(decimal_u64(column as u64).as_str());
                    proof {
                        assert(step(column as int) == Err::<CellView, ErrorView>(
                            missing_column_error(schema@, column as nat),
                        ));
                        lemma_collect_fails((column + 1) as nat, partial@.total, step);
                    }
                    return Err(
                        EtlError::with_detail(
                            ErrorKind::InvalidState,
                            "DuckLake partial update recovery is missing a column",
                            detail,
                        ),
                    );
                },
            }
        }
        proof {
            assert(step(column as int) == Ok::<CellView, ErrorView>(values@.last()@));
            assert(cell_views(values@) =~= held.push(values@.last()@));
        }
    }
    Ok(TableRow { values })
}

/// How many missing columns stand in front of a column.
pub open spec fn gaps_before(missing: Seq<usize>, column: int) -> nat
    decreases missing.len(),
{
    if missing.len() == 0 {
        0
    } else {
        gaps_before(missing.drop_last(), column) + if missing.last() < column {
            1nat
        } else {
            0nat
        }
    }
}

/// Whether a partial row says of every column of a table whether it carries it: its
/// missing columns are columns of the table, in ascending order, and it has one value
/// for each of the others.
pub open spec fn fits_table(partial: PartialTableRow, width: nat) -> bool {
    let missing = partial.missing@;
    &&& partial.total_columns == width
    &&& partial.row.values@.len() + missing.len() == width
    &&& forall|k: int| 0 <= k < missing.len() ==> #[trigger] missing[k] < width
    &&& forall|j: int, k: int|
        0 <= j < k < missing.len() ==> #[trigger] missing[j] < #[trigger] missing[k]
}

proof fn lemma_gaps_before(missing: Seq<usize>, column: int, split: int)
    requires
        0 <= split <= missing.len(),
        forall|k: int| 0 <= k < split ==> #[trigger] missing[k] < column,
        forall|k: int| split <= k < missing.len() ==> column <= #[trigger] missing[k],
    ensures
        gaps_before(missing, column) == split,
    decreases missing.len(),
{
    if missing.len() > 0 {
        let shorter = missing.drop_last();
        if split == missing.len() {
            assert(missing[split - 1] < column);
            lemma_gaps_before(shorter, column, split - 1);
        } else {
            assert(column <= missing[missing.len() - 1]);
            lemma_gaps_before(shorter, column, split);
        }
    }
}

proof fn lemma_split_at(missing: Seq<usize>, column: int) -> (split: int)
    requires
        forall|j: int, k: int|
            0 <= j < k < missing.len() ==> #[trigger] missing[j] < #[trigger] missing[k],
    ensures
        0 <= split <= missing.len(),
        forall|k: int| 0 <= k < split ==> #[trigger] missing[k] < column,
        forall|k: int| split <= k < missing.len() ==> column <= #[trigger] missing[k],
    decreases missing.len(),
{
    if missing.len() == 0 {
        0
    } else if missing.last() < column {
        missing.len() as int
    } else {
        let shorter = missing.drop_last();
        assert forall|j: int, k: int| 0 <= j < k < shorter.len() implies #[trigger] shorter[j]
            < #[trigger] shorter[k] by {
            assert(shorter[j] == missing[j] && shorter[k] == missing[k]);
        }
        let split = lemma_split_at(shorter, column);
        assert forall|k: int| 0 <= k < split implies #[trigger] missing[k] < column by {
            assert(missing[k] == shorter[k]);
        }
        assert forall|k: int| split <= k < missing.len() implies column
            <= #[trigger] missing[k] by {
            if k < shorter.len() {
                assert(missing[k] == shorter[k]);
            }
        }
        split
    }
}

/// The value of a column that a partial row carries stands behind those of the
/// carried columns in front of it: at the column's position, less the missing columns
/// in front of it.
pub proof fn law_carried_value_stands_at_its_rank(
    partial: PartialTableRow,
    width: nat,
    column: int,
)
    requires
        fits_table(partial, width),
        0 <= column < width,
    ensures
        partial@.missing.contains(column) <==> exists|k: int|
            0 <= k < partial.missing@.len() && #[trigger] partial.missing@[k] == column,
        present_rank(partial@.missing, column) == column - gaps_before(partial.missing@, column),
        !partial@.missing.contains(column) ==> 0 <= present_rank(partial@.missing, column)
            < partial.row.values@.len() && present_columns(
            partial@.missing,
            width,
        )[present_rank(partial@.missing, column)] == column,
        partial_fits(partial@, width),
        present_columns(partial@.missing, width).len() == partial.row.values@.len(),
{
    let missing = partial.missing@;
    let views = partial@.missing;
    assert forall|k: int| 0 <= k < views.len() implies #[trigger] views[k] == missing[k] by {}
    assert forall|j: int, k: int| 0 <= j < k < views.len() implies #[trigger] views[j]
        < #[trigger] views[k] by {
        assert(missing[j] < missing[k]);
    }
    assert forall|k: int| 0 <= k < views.len() implies 0 <= #[trigger] views[k] < width by {
        assert(missing[k] < width);
    }
    if views.contains(column) {
        let k = choose|k: int| 0 <= k < views.len() && views[k] == column;
        assert(missing[k] == column);
    }
    if exists|k: int| 0 <= k < missing.len() && #[trigger] missing[k] == column {
        let k = choose|k: int| 0 <= k < missing.len() && #[trigger] missing[k] == column;
        assert(views[k] == column);
    }
    let split = lemma_split_at(missing, column);
    lemma_gaps_before(missing, column, split);
    assert forall|k: int| 0 <= k < split implies #[trigger] views[k] < column by {
        assert(missing[k] < column);
    }
    assert forall|k: int| split <= k < views.len() implies column <= #[trigger] views[k] by {
        assert(column <= missing[k]);
    }
    lemma_present_count(views, column as nat, split);
    lemma_present_count(views, width, views.len() as int);
    if !views.contains(column) {
        let upto = present_columns(views, (column + 1) as nat);
        lemma_present_prefix(views, (column + 1) as nat, width);
        assert(upto.last() == column);
        assert(upto.len() == present_rank(views, column) + 1);
        assert(present_columns(views, width).take(upto.len() as int)[present_rank(
            views,
            column,
        )] == column);
    }
}

/// A row that was patched keeps its values in the missing columns and holds the
/// carried ones in all others, each in its column.
pub proof fn law_patched_row_holds_the_carried_values(
    table: SchemaView,
    partial: PartialTableRow,
    row: TableRow,
    column: int,
)
    requires
        fits_table(partial, row.values@.len()),
        0 <= column < row.values@.len(),
    ensures
        patched(table, partial@, row@) matches Ok(updated) && {
            &&& updated.len() == row.values@.len()
            &&& (exists|k: int|
                0 <= k < partial.missing@.len() && #[trigger] partial.missing@[k] == column)
                ==> updated[column] == row.values@[column]@
            &&& (forall|k: int|
                0 <= k < partial.missing@.len() ==> #[trigger] partial.missing@[k] != column)
                ==> updated[column] == partial.row.values@[column - gaps_before(
                partial.missing@,
                column,
            )]@
        },
{
    let width = row.values@.len();
    law_carried_value_stands_at_its_rank(partial, width, column);
    lemma_fitting_row_patches(partial@, width);
}

/// Whether an assignment writes a value to a column.
pub open spec fn assigns(text: Seq<char>, column: ColumnSchema, cell: Cell) -> bool {
    exists|name: Seq<char>, rest: Seq<char>|
        #![trigger name + rest]
        {
            &&& text == name + rest
            &&& identifier(name) == Some(lowered(column.name@))
            &&& inside(rest, " = "@, Seq::empty()) matches Some(literal) && reads_as(literal, cell)
        }
}

/// The assignments of a partial row write its carried values, and nothing else: there
/// is one for each carried column, in column order, which writes the value of that
/// column to it by its lake name. A row that carries nothing, or that does not fit the
/// table, has none.
pub proof fn law_assignments_write_the_carried_values(
    name: Seq<char>,
    columns: Seq<ColumnSchema>,
    partial: PartialTableRow,
)
    ensures
        ({
            let schema = SchemaView { name, columns: column_views(columns) };
            let missing = partial.missing@;
            &&& partial_assignments(schema, partial@) is Ok <==> fits_table(
                partial,
                columns.len(),
            ) && partial.row.values@.len() > 0
            &&& partial_assignments(schema, partial@) matches Ok(assignments) ==> {
                &&& assignments.len() == partial.row.values@.len()
                &&& forall|c: int|
                    #![trigger columns[c]]
                    0 <= c < columns.len() && !missing.contains(c as usize) ==> assigns(
                        assignments[c - gaps_before(missing, c)],
                        columns[c],
                        partial.row.values@[c - gaps_before(missing, c)],
                    )
            }
        }),
{
    let schema = SchemaView { name, columns: column_views(columns) };
    let missing = partial.missing@;
    let views = partial@.missing;
    let width = columns.len();
    assert forall|k: int| 0 <= k < views.len() implies #[trigger] views[k] == missing[k] by {}
    assert(ascending_below(views, width as int) <==> {
        &&& forall|k: int| 0 <= k < missing.len() ==> #[trigger] missing[k] < width
        &&& forall|j: int, k: int|
            0 <= j < k < missing.len() ==> #[trigger] missing[j] < #[trigger] missing[k]
    }) by {
        if ascending_below(views, width as int) {
            assert forall|k: int| 0 <= k < missing.len() implies #[trigger] missing[k] < width by {
                assert(views[k] < width);
            }
            assert forall|j: int, k: int| 0 <= j < k < missing.len() implies #[trigger] missing[j]
                < #[trigger] missing[k] by {
                assert(views[j] < views[k]);
            }
        }
        if (forall|k: int| 0 <= k < missing.len() ==> #[trigger] missing[k] < width) && (forall|
            j: int,
            k: int,
        |
            0 <= j < k < missing.len() ==> #[trigger] missing[j] < #[trigger] missing[k]) {
            assert forall|k: int| 0 <= k < views.len() implies 0 <= #[trigger] views[k]
                < width by {
                assert(missing[k] < width);
            }
            assert forall|j: int, k: int| 0 <= j < k < views.len() implies #[trigger] views[j]
                < #[trigger] views[k] by {
                assert(missing[j] < missing[k]);
            }
        }
    }
    if partial_assignments(schema, partial@) is Ok {
        let assignments = partial_assignments(schema, partial@)->Ok_0;
        assert forall|c: int|
            #![trigger columns[c]]
            0 <= c < columns.len() && !missing.contains(c as usize) implies assigns(
            assignments[c - gaps_before(missing, c)],
            columns[c],
            partial.row.values@[c - gaps_before(missing, c)],
        ) by {
            law_carried_value_stands_at_its_rank(partial, width, c);
            if views.contains(c) {
                let k = choose|k: int| 0 <= k < missing.len() && #[trigger] missing[k] == c;
                assert(missing[k] == c as usize);
            }
            let rank = c - gaps_before(missing, c);
            let cell = partial.row.values@[rank];
            let own = lake_column(columns[c]@);
            let rest = " = "@ + cell_literal(cell@);
            law_lake_column_reads_back(columns[c]);
            law_cell_literal_stands_for_its_cell(cell);
            lemma_inside(" = "@, cell_literal(cell@), Seq::empty());
            assert(rest + Seq::<char>::empty() =~= rest);
            assert(schema.columns[c] == columns[c]@);
            assert(partial@.values[rank] == cell@);
            assert(assignments[rank] =~= own + rest);
        }
    }
}

/// A row that was completed from the columns read back holds the carried values, and
/// in every missing column the value that was read of that column.
pub proof fn law_completed_row_holds_what_was_read(
    table: SchemaView,
    partial: PartialTableRow,
    columns: Seq<usize>,
    stored: TableRow,
    column: int,
    at: int,
)
    requires
        fits_table(partial, partial.total_columns as nat),
        stored.values@.len() == columns.len(),
        forall|j: int, k: int|
            0 <= j < k < columns.len() ==> #[trigger] columns[j] != #[trigger] columns[k],
        forall|k: int|
            0 <= k < partial.missing@.len() ==> columns.contains(#[trigger] partial.missing@[k]),
        0 <= column < partial.total_columns,
        0 <= at < columns.len(),
    ensures
        completed(table, partial@, index_views(columns), stored@) matches Ok(row) && {
            &&& row.len() == partial.total_columns
            &&& columns[at] == column && partial.missing@.contains(columns[at]) ==> row[column]
                == stored.values@[at]@
            &&& (forall|k: int|
                0 <= k < partial.missing@.len() ==> #[trigger] partial.missing@[k] != column)
                ==> row[column] == partial.row.values@[column - gaps_before(
                partial.missing@,
                column,
            )]@
        },
{
    let width = partial.total_columns as nat;
    let positions = index_views(columns);
    let missing = partial.missing@;
    let step = |c: int| completed_cell(table, partial@, positions, stored@, c);
    assert forall|c: int| 0 <= c < width implies #[trigger] step(c) is Ok by {
        law_carried_value_stands_at_its_rank(partial, width, c);
        if partial@.missing.contains(c) {
            let k = choose|k: int| 0 <= k < missing.len() && #[trigger] missing[k] == c;
            assert(columns.contains(missing[k]));
            let j = choose|j: int| 0 <= j < columns.len() && columns[j] == missing[k];
            assert(positions[j] == c);
            assert(positions.contains(c));
            let first = positions.index_of(c);
            assert(0 <= first < positions.len() && positions[first] == c);
        }
    }
    lemma_collect(width, step);
    assert(completed(table, partial@, positions, stored@) == collect(width, step));
    law_carried_value_stands_at_its_rank(partial, width, column);
    let row = completed(table, partial@, positions, stored@)->Ok_0;
    assert(step(column) == Ok::<CellView, ErrorView>(row[column]));
    if columns[at] == column && missing.contains(columns[at]) {
        let k = choose|k: int| 0 <= k < missing.len() && missing[k] == columns[at];
        assert(missing[k] == column);
        assert(partial@.missing.contains(column));
        assert(positions[at] == column);
        assert(positions.contains(column));
        let first = positions.index_of(column);
        assert(positions[first] == column && 0 <= first < positions.len());
        assert(columns[first] == columns[at]);
        assert(first == at) by {
            if first < at {
                assert(columns[first] != columns[at]);
            } else if at < first {
                assert(columns[at] != columns[first]);
            }
        }
    }
}

/// A partial row without assignments says why: it names another number of columns than
/// the table has, it carries nothing, it has not one value for every column it does not
/// miss, or its missing columns are not columns of the table in ascending order.
pub proof fn law_refused_partial_rows_say_why(
    name: Seq<char>,
    columns: Seq<ColumnSchema>,
    partial: PartialTableRow,
)
    ensures
        ({
            let schema = SchemaView { name, columns: column_views(columns) };
            let carried = partial.row.values@.len();
            let missing = partial.missing@.len();
            partial_assignments(schema, partial@) matches Err(error) ==> {
                &&& error.kind is InvalidState
                &&& if partial.total_columns != columns.len() {
                    error.detail == Some(
                        "Expected "@ + decimal(columns.len()) + " replicated columns for table '"@
                            + name + "', got "@ + decimal(partial.total_columns as nat),
                    )
                } else if carried == 0 {
                    error.detail == Some(
                        "Table '"@ + name + "' emitted an empty partial update row"@,
                    )
                } else if carried + missing != columns.len() {
                    error.detail == Some(
                        "Table '"@ + name + "' partial row reports "@ + decimal(
                            partial.total_columns as nat,
                        ) + " total columns but has "@ + decimal(carried) + " present and "@
                            + decimal(missing) + " missing"@,
                    )
                } else {
                    error.detail == Some(
                        "Table '"@ + name
                            + "' did not provide enough values for its partial update row"@,
                    )
                }
            }
        }),
{
}

/// Whatever columns a partial row misses, its values go to the columns it does not miss,
/// in column order: the value of a column has as many in front of it as carried columns
/// stand in front of that column.
pub proof fn law_values_go_to_the_columns_not_missed(missing: Seq<int>, column: int)
    requires
        0 <= column,
    ensures
        present_rank(missing, 0) == 0,
        present_rank(missing, column + 1) == present_rank(missing, column) + if missing.contains(
            column,
        ) {
            0int
        } else {
            1int
        },
        !missing.contains(column) ==> present_columns(
            missing,
            (column + 1) as nat,
        )[present_rank(missing, column)] == column,
{
}

/// A row is patched exactly when there is a value for every column that is not missed, and
/// then those columns hold their values and the others what they held.
pub proof fn law_rows_are_patched_column_by_column(
    table: SchemaView,
    partial: PartialTableRow,
    row: TableRow,
)
    ensures
        match patched(table, partial@, row@) {
            Ok(updated) => updated.len() == row.values@.len() && forall|c: int|
                0 <= c < row.values@.len() ==> #[trigger] updated[c] == (
                if index_views(partial.missing@).contains(c) {
                    row.values@[c]@
                } else {
                    partial.row.values@[present_rank(index_views(partial.missing@), c)]@
                }) && (!index_views(partial.missing@).contains(c) ==> 0 <= present_rank(
                    index_views(partial.missing@),
                    c,
                ) < partial.row.values@.len()),
            Err(_) => exists|c: int|
                0 <= c < row.values@.len() && !#[trigger] index_views(partial.missing@).contains(c)
                    && present_rank(index_views(partial.missing@), c) >= partial.row.values@.len(),
        },
{
}

/// A row is completed exactly when every column of it can be had: a missed one from what
/// was read and any other one from what is carried.
pub proof fn law_rows_are_completed_column_by_column(
    table: SchemaView,
    partial: PartialTableRow,
    columns: Seq<usize>,
    stored: TableRow,
)
    ensures
        ({
            let missing = index_views(partial.missing@);
            let read = index_views(columns);
            completed(table, partial@, read, stored@) is Ok <==> forall|c: int|
                0 <= c < partial.total_columns ==> if #[trigger] missing.contains(c) {
                    read.contains(c) && read.index_of(c) < stored.values@.len()
                } else {
                    present_rank(missing, c) < partial.row.values@.len()
                }
        }),
{
    let missing = index_views(partial.missing@);
    let read = index_views(columns);
    let step = |c: int| completed_cell(table, partial@, read, stored@, c);
    lemma_collect(partial.total_columns as nat, step);
    assert(completed(table, partial@, read, stored@) == collect(
        partial.total_columns as nat,
        step,
    ));
    let had = |c: int|
        if missing.contains(c) {
            read.contains(c) && read.index_of(c) < stored.values@.len()
        } else {
            present_rank(missing, c) < partial.row.values@.len()
        };
    assert forall|c: int| 0 <= c < partial.total_columns implies #[trigger] step(c) is Ok
        == had(c) by {}
    if forall|c: int|
        0 <= c < partial.total_columns ==> if #[trigger] missing.contains(c) {
            read.contains(c) && read.index_of(c) < stored.values@.len()
        } else {
            present_rank(missing, c) < partial.row.values@.len()
        } {
        assert forall|c: int| 0 <= c < partial.total_columns implies #[trigger] step(
            c,
        ) is Ok by {
            assert(missing.contains(c) || !missing.contains(c));
            assert(had(c));
        }
    }
    if completed(table, partial@, read, stored@) is Ok {
        assert forall|c: int| 0 <= c < partial.total_columns implies if #[trigger] missing.contains(
            c,
        ) {
            read.contains(c) && read.index_of(c) < stored.values@.len()
        } else {
            present_rank(missing, c) < partial.row.values@.len()
        } by {
            assert(step(c) is Ok);
            assert(had(c));
        }
    }
}

/// A row that cannot be completed says which column was not read back, or that the partial
/// row ended early.
pub proof fn law_incomplete_rows_say_why(
    table: SchemaView,
    partial: PartialRowView,
    columns: Seq<int>,
    stored: Seq<CellView>,
    column: nat,
)
    ensures
        completed_cell(table, partial, columns, stored, column as int) matches Err(error) ==> {
            &&& error.kind is InvalidState
            &&& partial.missing.contains(column as int) ==> error.description
                == "DuckLake partial update recovery is missing a column"@ && error.detail == Some(
                "Table '"@ + table.name + "' did not read back replicated column "@ + decimal(
                    column,
                ),
            )
            &&& !partial.missing.contains(column as int) ==> error.description
                == "DuckLake partial update row ended early"@ && error.detail == Some(
                "Table '"@ + table.name
                    + "' did not provide enough values for its partial update row"@,
            )
        },
{
}

} // verus!
