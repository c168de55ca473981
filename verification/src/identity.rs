//! Replica identities of rows: key values, predicates and key components.

use vstd::prelude::*;

use crate::data::{Cell, CellView, OldRowView, OldTableRow, TableRow};
use crate::error::{detailed_error, ErrorKind, ErrorView, EtlError};
use crate::key_set::{
    component_of, component_views, components_of, ordinal_of, ComponentView, KeyComponent,
};
use crate::literal::{cell_literal, cell_to_sql_literal_ref};
use crate::reading::{
    identifier, inside, law_cell_literal_stands_for_its_cell, lemma_inside, reads_as,
};
use crate::schema::{
    column_views, identity_indexes, identity_positions, lake_column,
    law_identity_indexes_are_the_identity_columns, law_lake_column_reads_back,
    lemma_identity_indexes, ColumnSchema, ColumnView, ReplicatedTableSchema, SchemaView, TypeKind,
};
use crate::text::{decimal, decimal_u64, join_texts, joined, lowered, texts};

verus! {

/// Borrowed row image used to build identity predicates.
#[derive(Clone, Copy)]
pub enum DeletePredicateRowRef<'a> {
    Full(&'a TableRow),
    Key(&'a TableRow),
}

impl<'a> View for DeletePredicateRowRef<'a> {
    type V = OldRowView;

    open spec fn view(&self) -> OldRowView {
        match *self {
            DeletePredicateRowRef::Full(row) => OldRowView::Full(row@),
            DeletePredicateRowRef::Key(row) => OldRowView::Key(row@),
        }
    }
}

impl<'a> DeletePredicateRowRef<'a> {
    /// Borrows an old row image.
    pub fn from_old(row: &'a OldTableRow) -> (r: DeletePredicateRowRef<'a>)
        ensures
            r@ == row@,
    {
        match row {
            OldTableRow::Full(row) => DeletePredicateRowRef::Full(row),
            OldTableRow::Key(row) => DeletePredicateRowRef::Key(row),
        }
    }
}

/// The replica identity columns, in column order.
pub open spec fn identity_columns(schema: SchemaView) -> Seq<ColumnView> {
    identity_indexes(schema.columns).map_values(|i: int| schema.columns[i])
}

/// The error of a table without a replica identity.
pub open spec fn no_identity_error(schema: SchemaView) -> ErrorView {
    detailed_error(
        ErrorKind::SourceReplicaIdentityError,
        "DuckLake delete requires a replica identity"@,
        "Table '"@ + schema.name + "' has no replicated replica-identity columns"@,
    )
}

/// The error of a full row with the wrong number of values.
pub open spec fn row_shape_error(schema: SchemaView, count: nat) -> ErrorView {
    detailed_error(
        ErrorKind::InvalidState,
        "DuckLake row shape does not match schema"@,
        "Expected "@ + decimal(schema.columns.len()) + " values for table '"@ + schema.name
            + "', got "@ + decimal(count),
    )
}

/// The error of a key image with the wrong number of values.
pub open spec fn key_shape_error(schema: SchemaView, count: nat) -> ErrorView {
    detailed_error(
        ErrorKind::InvalidState,
        "DuckLake key image does not match replica identity"@,
        "Expected "@ + decimal(identity_columns(schema).len()) + " key values for table '"@
            + schema.name + "', got "@ + decimal(count),
    )
}

/// The replica identity values of a row image.
pub open spec fn key_cells(schema: SchemaView, row: OldRowView) -> Result<
    Seq<CellView>,
    ErrorView,
> {
    if identity_columns(schema).len() == 0 {
        Err(no_identity_error(schema))
    } else {
        match row {
            OldRowView::Full(cells) => if cells.len() != schema.columns.len() {
                Err(row_shape_error(schema, cells.len()))
            } else {
                Ok(identity_indexes(schema.columns).map_values(|i: int| cells[i]))
            },
            OldRowView::Key(cells) => if cells.len() != identity_columns(schema).len() {
                Err(key_shape_error(schema, cells.len()))
            } else {
                Ok(cells)
            },
        }
    }
}

/// The columns of column and value pairs.
pub open spec fn pair_columns(pairs: Seq<(&ColumnSchema, &Cell)>) -> Seq<ColumnView> {
    pairs.map_values(|p: (&ColumnSchema, &Cell)| p.0@)
}

/// The values of column and value pairs.
pub open spec fn pair_cells(pairs: Seq<(&ColumnSchema, &Cell)>) -> Seq<CellView> {
    pairs.map_values(|p: (&ColumnSchema, &Cell)| p.1@)
}

fn expected_got(before: &str, expected: usize, between: &str, name: &str, got: usize) -> (r: String)
    ensures
        r@ == before@ + decimal(expected as nat) + between@ + name@ + "', got "@ + decimal(
            got as nat,
        ),
{
    let mut detail = before.to_owned();
    detail.append(decimal_u64(expected as u64).as_str());
    detail.append(between);
    detail.append(name);
    detail.append("', got ");
    detail.append(decimal_u64(got as u64).as_str());
    detail
}

/// Pairs each replica identity column with its value in a row image.
pub fn delete_key_values<'a>(
    schema: &'a ReplicatedTableSchema,
    row: DeletePredicateRowRef<'a>,
) -> (r: Result<Vec<(&'a ColumnSchema, &'a Cell)>, EtlError>)
    ensures
        match r {
            Ok(pairs) => {
                &&& pair_columns(pairs@) == identity_columns(schema@)
                &&& key_cells(schema@, row@) == Ok::<Seq<CellView>, ErrorView>(pair_cells(pairs@))
            },
            Err(error) => key_cells(schema@, row@) == Err::<Seq<CellView>, ErrorView>(error@),
        },
{
    let indexes = schema.identity_column_indexes();
    let columns = schema.column_schemas();
    let ghost all = identity_indexes(schema@.columns);
    proof {
        lemma_identity_indexes(schema@.columns);
        assert(all.len() == indexes@.map_values(|i: usize| i as int).len());
        assert(forall|j: int| 0 <= j < all.len() ==> #[trigger] all[j] == indexes@[j]);
        assert(schema@.columns.len() == columns@.len());
    }
    if indexes.len() == 0 {
        let mut detail = "Table '".to_owned();
        detail.append(schema.name());
        detail.append("' has no replicated replica-identity columns");
        return Err(
            EtlError::with_detail(
                ErrorKind::SourceReplicaIdentityError,
                "DuckLake delete requires a replica identity",
                detail,
            ),
        );
    }
    let mut pairs: Vec<(&'a ColumnSchema, &'a Cell)> = Vec::new();
    match row {
        DeletePredicateRowRef::Full(row) => {
            if row.values.len() != columns.len() {
                let detail = expected_got(
                    "Expected ",
                    columns.len(),
                    " values for table '",
                    schema.name(),
                    row.values.len(),
                );
                return Err(
                    EtlError::with_detail(
                        ErrorKind::InvalidState,
                        "DuckLake row shape does not match schema",
                        detail,
                    ),
                );
            }
            for k in 0..indexes.len()
                invariant
                    all == identity_indexes(schema@.columns),
                    all.len() == indexes@.len(),
                    column_views(columns@) == schema@.columns,
                    row.values@.len() == columns@.len(),
                    forall|j: int| 0 <= j < all.len() ==> #[trigger] all[j] == indexes@[j],
                    forall|j: int| 0 <= j < all.len() ==> 0 <= #[trigger] all[j] < columns@.len(),
                    pairs@.len() == k,
                    forall|j: int|
                        0 <= j < k ==> (#[trigger] pairs@[j]).0@ == schema@.columns[all[j]],
                    forall|j: int| 0 <= j < k ==> (#[trigger] pairs@[j]).1@ == row@[all[j]],
            {
                let index: usize = indexes[k];
                assert(all[k as int] == index);
                assert(schema@.columns[index as int] == columns@[index as int]@);
                assert(row@[index as int] == row.values@[index as int]@);
                pairs.push((&columns[index], &row.values[index]));
            }
            proof {
                assert(pair_columns(pairs@) =~= identity_columns(schema@));
                assert(pair_cells(pairs@) =~= all.map_values(|i: int| row@[i]));
            }
        },
        DeletePredicateRowRef::Key(row) => {
            if row.values.len() != indexes.len() {
                let detail = expected_got(
                    "Expected ",
                    indexes.len(),
                    " key values for table '",
                    schema.name(),
                    row.values.len(),
                );
                return Err(
                    EtlError::with_detail(
                        ErrorKind::InvalidState,
                        "DuckLake key image does not match replica identity",
                        detail,
                    ),
                );
            }
            for k in 0..indexes.len()
                invariant
                    all == identity_indexes(schema@.columns),
                    all.len() == indexes@.len(),
                    column_views(columns@) == schema@.columns,
                    row.values@.len() == indexes@.len(),
                    forall|j: int| 0 <= j < all.len() ==> #[trigger] all[j] == indexes@[j],
                    forall|j: int| 0 <= j < all.len() ==> 0 <= #[trigger] all[j] < columns@.len(),
                    pairs@.len() == k,
                    forall|j: int|
                        0 <= j < k ==> (#[trigger] pairs@[j]).0@ == schema@.columns[all[j]],
                    forall|j: int| 0 <= j < k ==> (#[trigger] pairs@[j]).1@ == row@[j],
            {
                let index: usize = indexes[k];
                assert(all[k as int] == index);
                assert(schema@.columns[index as int] == columns@[index as int]@);
                assert(row@[k as int] == row.values@[k as int]@);
                pairs.push((&columns[index], &row.values[k]));
            }
            proof {
                assert(pair_columns(pairs@) =~= identity_columns(schema@));
                assert(pair_cells(pairs@) =~= row@);
            }
        },
    }
    Ok(pairs)
}

/// The predicate on one identity column. A `NULL` identity value matches
/// `NULL`.
pub open spec fn identity_term(column: ColumnView, cell: CellView) -> Seq<char> {
    if cell is Null {
        lake_column(column) + " IS NULL"@
    } else {
        lake_column(column) + " = "@ + cell_literal(cell)
    }
}

/// The predicates on identity columns.
pub open spec fn identity_terms(columns: Seq<ColumnView>, cells: Seq<CellView>) -> Seq<Seq<char>> {
    Seq::new(columns.len(), |k: int| identity_term(columns[k], cells[k]))
}

/// The predicate that selects the rows of one identity.
pub open spec fn identity_text(columns: Seq<ColumnView>, cells: Seq<CellView>) -> Seq<char> {
    joined(identity_terms(columns, cells), " AND "@)
}

/// Builds the predicate that selects the rows of one identity.
///
/// The normalizer and the recovery read share this renderer, so a recovered row
/// maps back to exactly the predicate the normalizer tracks.
pub fn identity_predicate(pairs: &Vec<(&ColumnSchema, &Cell)>) -> (r: String)
    ensures
        r@ == identity_text(pair_columns(pairs@), pair_cells(pairs@)),
{
    let mut terms: Vec<String> = Vec::new();
    let ghost columns = pair_columns(pairs@);
    let ghost cells = pair_cells(pairs@);
    for i in 0..pairs.len()
        invariant
            columns == pair_columns(pairs@),
            cells == pair_cells(pairs@),
            terms@.len() == i,
            forall|j: int| 0 <= j < i ==> (#[trigger] terms@[j])@ == identity_term(columns[j], cells[j]),
    {
        let (column, cell) = pairs[i];
        assert(columns[i as int] == column@);
        assert(cells[i as int] == cell@);
        let mut term = column.lake_name();
        match cell {
            Cell::Null => term.append(" IS NULL"),
            _ => {
                term.append(" = ");
                term.append(cell_to_sql_literal_ref(cell).as_str());
            },
        }
        terms.push(term);
    }
    assert(texts(terms@) =~= identity_terms(columns, cells));
    join_texts(&terms, " AND ")
}

/// The identity predicate of a row image.
pub open spec fn row_predicate(schema: SchemaView, row: OldRowView) -> Result<
    Seq<char>,
    ErrorView,
> {
    match key_cells(schema, row) {
        Err(error) => Err(error),
        Ok(cells) => Ok(identity_text(identity_columns(schema), cells)),
    }
}

/// Builds the identity predicate of a row image.
pub fn delete_predicate_from_row<'a>(
    schema: &'a ReplicatedTableSchema,
    row: DeletePredicateRowRef<'a>,
) -> (r: Result<String, EtlError>)
    ensures
        match r {
            Ok(predicate) => row_predicate(schema@, row@) == Ok::<Seq<char>, ErrorView>(predicate@),
            Err(error) => row_predicate(schema@, row@) == Err::<Seq<char>, ErrorView>(error@),
        },
{
    match delete_key_values(schema, row) {
        Ok(pairs) => Ok(identity_predicate(&pairs)),
        Err(error) => Err(error),
    }
}

/// The key components of a row image.
pub open spec fn row_key(schema: SchemaView, row: OldRowView) -> Result<
    Seq<ComponentView>,
    ErrorView,
> {
    match key_cells(schema, row) {
        Err(error) => Err(error),
        Ok(cells) => Ok(components_of(cells)),
    }
}

/// Builds the key components of a row image.
///
/// Each literal is rendered once and serves both the key list and any bound
/// taken from it.
pub fn delete_key_components<'a>(
    schema: &'a ReplicatedTableSchema,
    row: DeletePredicateRowRef<'a>,
) -> (r: Result<Vec<KeyComponent>, EtlError>)
    ensures
        match r {
            Ok(key) => row_key(schema@, row@) == Ok::<Seq<ComponentView>, ErrorView>(
                component_views(key@),
            ),
            Err(error) => row_key(schema@, row@) == Err::<Seq<ComponentView>, ErrorView>(error@),
        },
{
    let pairs = match delete_key_values(schema, row) {
        Ok(pairs) => pairs,
        Err(error) => return Err(error),
    };
    let mut key: Vec<KeyComponent> = Vec::new();
    let ghost cells = pair_cells(pairs@);
    for i in 0..pairs.len()
        invariant
            cells == pair_cells(pairs@),
            key@.len() == i,
            forall|j: int| 0 <= j < i ==> (#[trigger] key@[j])@ == component_of(cells[j]),
    {
        let (_, cell) = pairs[i];
        assert(cells[i as int] == cell@);
        key.push(KeyComponent::from_cell(cell, cell_to_sql_literal_ref(cell)));
    }
    assert(component_views(key@) =~= components_of(cells));
    Ok(key)
}

/// Whether every identity column, of which there is at least one, is an
/// integer or a UUID. Two such identities are equal exactly when their
/// predicates are.
pub open spec fn canonical_identity(schema: SchemaView) -> bool {
    &&& identity_columns(schema).len() > 0
    &&& forall|k: int|
        0 <= k < identity_columns(schema).len() ==> canonical_column(
            #[trigger] identity_columns(schema)[k],
        )
}

/// Whether a column holds integers or UUIDs.
pub open spec fn canonical_column(column: ColumnView) -> bool {
    !column.is_array && (column.kind is Int2 || column.kind is Int4 || column.kind is Int8
        || column.kind is Uuid)
}

/// Returns whether predicate equality is a complete identity comparison.
///
/// It is for canonical integer and UUID columns. Other types keep the
/// database's own equality.
pub fn has_canonical_identity(schema: &ReplicatedTableSchema) -> (r: bool)
    ensures
        r == canonical_identity(schema@),
{
    let indexes = schema.identity_column_indexes();
    let columns = schema.column_schemas();
    let ghost all = identity_columns(schema@);
    proof {
        lemma_identity_indexes(schema@.columns);
        let positions = identity_indexes(schema@.columns);
        assert(positions =~= indexes@.map_values(|i: usize| i as int));
        assert(schema@.columns.len() == columns@.len());
        assert forall|j: int| 0 <= j < all.len() implies #[trigger] indexes@[j] < columns@.len() by {
            assert(positions[j] == indexes@[j]);
        }
        assert forall|j: int| 0 <= j < all.len() implies (#[trigger] all[j])
            == schema@.columns[indexes@[j] as int] by {
            assert(positions[j] == indexes@[j]);
        }
    }
    if indexes.len() == 0 {
        return false;
    }
    for k in 0..indexes.len()
        invariant
            all == identity_columns(schema@),
            all.len() == indexes@.len(),
            column_views(columns@) == schema@.columns,
            forall|j: int| 0 <= j < all.len() ==> #[trigger] indexes@[j] < columns@.len(),
            forall|j: int|
                0 <= j < all.len() ==> (#[trigger] all[j]) == schema@.columns[indexes@[j] as int],
            forall|j: int| 0 <= j < k ==> canonical_column(#[trigger] all[j]),
    {
        let index: usize = indexes[k];
        assert(all[k as int] == schema@.columns[index as int]);
        let column = &columns[index];
        assert(all[k as int] == column@);
        let canonical = !column.column_type.is_array && match column.column_type.kind {
            TypeKind::Int2 | TypeKind::Int4 | TypeKind::Int8 | TypeKind::Uuid => true,
            _ => false,
        };
        if !canonical {
            return false;
        }
    }
    true
}

/// One value of a row's identity.
pub open spec fn identity_value(row: OldTableRow, positions: Seq<int>, k: int) -> Cell {
    match row {
        OldTableRow::Full(row) => row.values@[positions[k]],
        OldTableRow::Key(row) => row.values@[k],
    }
}

/// Whether a row image has one value for every column it should have: a full image
/// for every column of the table, and a key image for every identity column.
pub open spec fn image_fits(columns: Seq<ColumnSchema>, row: OldTableRow) -> bool {
    match row {
        OldTableRow::Full(row) => row.values@.len() == columns.len(),
        OldTableRow::Key(row) => row.values@.len() == identity_positions(columns).len(),
    }
}

/// Whether a predicate's term asks that a column holds a value: by its lake name,
/// and with `IS NULL` for an absent value.
pub open spec fn asks_for(term: Seq<char>, column: ColumnSchema, cell: Cell) -> bool {
    exists|name: Seq<char>, rest: Seq<char>|
        #![trigger name + rest]
        {
            &&& term == name + rest
            &&& identifier(name) == Some(lowered(column.name@))
            &&& if cell is Null {
                rest == " IS NULL"@
            } else {
                inside(rest, " = "@, Seq::empty()) matches Some(literal) && reads_as(literal, cell)
            }
        }
}

/// The identity of a row: it is that of the identity columns, in column order, in a
/// full image the values at their positions and in a key image all of them. An image
/// of another width, or of a table without identity columns, has none.
pub proof fn law_identity_is_read_at_the_identity_columns(
    table: Seq<char>,
    columns: Seq<ColumnSchema>,
    row: OldTableRow,
)
    ensures
        ({
            let schema = SchemaView { name: table, columns: column_views(columns) };
            let positions = identity_positions(columns);
            &&& key_cells(schema, row@) is Ok <==> positions.len() > 0 && image_fits(columns, row)
            &&& key_cells(schema, row@) matches Ok(cells) ==> cells.len() == positions.len()
                && forall|k: int|
                0 <= k < positions.len() ==> #[trigger] cells[k] == identity_value(
                    row,
                    positions,
                    k,
                )@
        }),
{
    let schema = SchemaView { name: table, columns: column_views(columns) };
    law_identity_indexes_are_the_identity_columns(columns);
    lemma_identity_indexes(schema.columns);
}

/// The predicate of a row asks for the whole identity of the row: it has one term
/// for each identity column, in column order, and the term asks for the value that
/// the row holds there. The key of the row holds the same values.
pub proof fn law_predicate_asks_for_the_whole_identity(
    table: Seq<char>,
    columns: Seq<ColumnSchema>,
    row: OldTableRow,
)
    requires
        identity_positions(columns).len() > 0,
        image_fits(columns, row),
    ensures
        ({
            let schema = SchemaView { name: table, columns: column_views(columns) };
            let positions = identity_positions(columns);
            &&& exists|terms: Seq<Seq<char>>|
                {
                    &&& row_predicate(schema, row@) == Ok::<Seq<char>, ErrorView>(
                        #[trigger] joined(terms, " AND "@),
                    )
                    &&& terms.len() == positions.len()
                    &&& forall|k: int|
                        0 <= k < positions.len() ==> asks_for(
                            #[trigger] terms[k],
                            columns[positions[k]],
                            identity_value(row, positions, k),
                        )
                }
            &&& row_key(schema, row@) matches Ok(key) && key.len() == positions.len() && forall|
                k: int,
            |
                0 <= k < positions.len() ==> reads_as(
                    (#[trigger] key[k]).literal,
                    identity_value(row, positions, k),
                ) && key[k].ordinal == ordinal_of(identity_value(row, positions, k)@)
        }),
{
    let schema = SchemaView { name: table, columns: column_views(columns) };
    let positions = identity_positions(columns);
    law_identity_is_read_at_the_identity_columns(table, columns, row);
    law_identity_indexes_are_the_identity_columns(columns);
    lemma_identity_indexes(schema.columns);
    let cells = key_cells(schema, row@)->Ok_0;
    let terms = identity_terms(identity_columns(schema), cells);
    assert forall|k: int| 0 <= k < positions.len() implies asks_for(
        #[trigger] terms[k],
        columns[positions[k]],
        identity_value(row, positions, k),
    ) by {
        let column = columns[positions[k]];
        let cell = identity_value(row, positions, k);
        let name = lake_column(column@);
        law_lake_column_reads_back(column);
        assert(identity_columns(schema)[k] == column@);
        assert(cells[k] == cell@);
        if cell is Null {
            assert(terms[k] == name + " IS NULL"@);
        } else {
            let rest = " = "@ + cell_literal(cell@);
            law_cell_literal_stands_for_its_cell(cell);
            lemma_inside(" = "@, cell_literal(cell@), Seq::empty());
            assert(rest + Seq::<char>::empty() =~= rest);
            assert(terms[k] =~= name + rest);
        }
    }
    assert(row_predicate(schema, row@) == Ok::<Seq<char>, ErrorView>(joined(terms, " AND "@)));
    let key = row_key(schema, row@)->Ok_0;
    assert forall|k: int| 0 <= k < positions.len() implies reads_as(
        (#[trigger] key[k]).literal,
        identity_value(row, positions, k),
    ) && key[k].ordinal == ordinal_of(identity_value(row, positions, k)@) by {
        assert(cells[k] == identity_value(row, positions, k)@);
        law_cell_literal_stands_for_its_cell(identity_value(row, positions, k));
    }
}

/// An identity is canonical when there is one and its columns are integers of the
/// source's three widths or UUIDs, none of them an array.
pub proof fn law_canonical_identities_are_integers_and_uuids(
    table: Seq<char>,
    columns: Seq<ColumnSchema>,
)
    ensures
        canonical_identity(SchemaView { name: table, columns: column_views(columns) }) <==> {
            &&& exists|i: int| 0 <= i < columns.len() && (#[trigger] columns[i]).identity
            &&& forall|i: int|
                0 <= i < columns.len() && (#[trigger] columns[i]).identity ==> {
                    &&& !columns[i].column_type.is_array
                    &&& {
                        ||| columns[i].column_type.kind is Int2
                        ||| columns[i].column_type.kind is Int4
                        ||| columns[i].column_type.kind is Int8
                        ||| columns[i].column_type.kind is Uuid
                    }
                }
        },
{
    let views = column_views(columns);
    let schema = SchemaView { name: table, columns: views };
    let indexes = identity_indexes(views);
    lemma_identity_indexes(views);
    assert forall|k: int| 0 <= k < indexes.len() implies #[trigger] identity_columns(schema)[k]
        == columns[indexes[k]]@ && columns[indexes[k]].identity by {
        assert(views[indexes[k]].identity);
    }
    assert forall|i: int| 0 <= i < columns.len() && (#[trigger] columns[i]).identity implies exists|
        k: int,
    | 0 <= k < indexes.len() && #[trigger] identity_columns(schema)[k] == columns[i]@ by {
        assert(views[i].identity);
        let k = choose|k: int| 0 <= k < indexes.len() && indexes[k] == i;
        assert(identity_columns(schema)[k] == columns[i]@);
    }
    if indexes.len() > 0 {
        assert(columns[indexes[0]].identity) by {
            assert(identity_columns(schema)[0] == columns[indexes[0]]@);
        }
    }
}

/// An identity that cannot be read says why: the table has no identity columns, a full
/// image has not as many values as the table has columns, or a key image has not as many
/// as there are identity columns. The counts are named.
pub proof fn law_unreadable_identities_say_why(
    table: Seq<char>,
    columns: Seq<ColumnSchema>,
    row: OldTableRow,
)
    ensures
        ({
            let schema = SchemaView { name: table, columns: column_views(columns) };
            let positions = identity_positions(columns);
            key_cells(schema, row@) matches Err(error) ==> if positions.len() == 0 {
                &&& error.kind is SourceReplicaIdentityError
                &&& error.description == "DuckLake delete requires a replica identity"@
                &&& error.detail == Some(
                    "Table '"@ + table + "' has no replicated replica-identity columns"@,
                )
            } else {
                &&& error.kind is InvalidState
                &&& match row {
                    OldTableRow::Full(row) => error.description
                        == "DuckLake row shape does not match schema"@ && error.detail == Some(
                        "Expected "@ + decimal(columns.len()) + " values for table '"@ + table
                            + "', got "@ + decimal(row.values@.len()),
                    ),
                    OldTableRow::Key(row) => error.description
                        == "DuckLake key image does not match replica identity"@ && error.detail
                        == Some(
                        "Expected "@ + decimal(positions.len()) + " key values for table '"@
                            + table + "', got "@ + decimal(row.values@.len()),
                    ),
                }
            }
        }),
{
    let schema = SchemaView { name: table, columns: column_views(columns) };
    law_identity_is_read_at_the_identity_columns(table, columns, row);
    law_identity_indexes_are_the_identity_columns(columns);
}

} // verus!
