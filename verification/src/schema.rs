//! Replicated table schemas and destination table names.

use vstd::prelude::*;

use crate::reading::{identifier, law_identifier_reads_back};
use crate::text::{lower_ascii, lowered, quote_identifier};

verus! {

/// Postgres types that keep a column type of their own in the lake. Every
/// other type is `Other` and is stored as text.
#[derive(Clone, Copy, Debug, PartialEq, Eq, Structural)]
pub enum TypeKind {
    Bool,
    Int2,
    Int4,
    Int8,
    Oid,
    Float4,
    Float8,
    Numeric,
    Date,
    Time,
    TimeTz,
    Timestamp,
    TimestampTz,
    Uuid,
    Json,
    Jsonb,
    Bytea,
    Other,
}

/// The Postgres type of one column: its kind, whether it is an array of that
/// kind, and its catalog name.
#[derive(Debug, PartialEq)]
pub struct ColumnType {
    pub kind: TypeKind,
    pub is_array: bool,
    pub name: String,
}

impl ColumnType {
    /// Creates a column type.
    pub fn new(kind: TypeKind, is_array: bool, name: &str) -> (r: ColumnType)
        ensures
            r.kind == kind,
            r.is_array == is_array,
            r.name@ == name@,
    {
        ColumnType { kind, is_array, name: name.to_owned() }
    }
}

/// One replicated column, and whether it is part of the replica identity.
#[derive(Debug, PartialEq)]
pub struct ColumnSchema {
    pub name: String,
    pub column_type: ColumnType,
    pub identity: bool,
}

/// Contents of a [`ColumnSchema`].
pub struct ColumnView {
    pub name: Seq<char>,
    pub kind: TypeKind,
    pub is_array: bool,
    pub catalog_name: Seq<char>,
    pub identity: bool,
}

impl View for ColumnSchema {
    type V = ColumnView;

    open spec fn view(&self) -> ColumnView {
        ColumnView {
            name: self.name@,
            kind: self.column_type.kind,
            is_array: self.column_type.is_array,
            catalog_name: self.column_type.name@,
            identity: self.identity,
        }
    }
}

impl ColumnSchema {
    /// Creates a column outside the replica identity.
    pub fn new(name: &str, column_type: ColumnType) -> (r: ColumnSchema)
        ensures
            r@ == (ColumnView {
                name: name@,
                kind: column_type.kind,
                is_array: column_type.is_array,
                catalog_name: column_type.name@,
                identity: false,
            }),
    {
        ColumnSchema { name: name.to_owned(), column_type, identity: false }
    }

    /// Makes the column part of the replica identity.
    pub fn with_identity(self) -> (r: ColumnSchema)
        ensures
            r@ == (ColumnView { identity: true, ..self@ }),
    {
        ColumnSchema { name: self.name, column_type: self.column_type, identity: true }
    }

    /// Returns the quoted name of the column in the lake.
    pub fn lake_name(&self) -> (r: String)
        ensures
            r@ == lake_column(self@),
    {
        let mapped = lower_ascii(self.name.as_str());
        quote_identifier(mapped.as_str())
    }
}

/// The quoted lake name of a column: lake names are lowercase.
pub open spec fn lake_column(column: ColumnView) -> Seq<char> {
    crate::text::quoted(crate::text::lowered(column.name))
}

/// The replicated columns of one source table, in write order.
#[derive(Debug, PartialEq)]
pub struct ReplicatedTableSchema {
    name: String,
    columns: Vec<ColumnSchema>,
}

/// Contents of a [`ReplicatedTableSchema`].
pub struct SchemaView {
    pub name: Seq<char>,
    pub columns: Seq<ColumnView>,
}

/// Contents of a list of columns.
pub open spec fn column_views(columns: Seq<ColumnSchema>) -> Seq<ColumnView> {
    columns.map_values(|c: ColumnSchema| c@)
}

/// The indexes of the replica identity columns, in ascending order.
pub open spec fn identity_indexes(columns: Seq<ColumnView>) -> Seq<int>
    decreases columns.len(),
{
    if columns.len() == 0 {
        Seq::empty()
    } else if columns.last().identity {
        identity_indexes(columns.drop_last()).push(columns.len() - 1)
    } else {
        identity_indexes(columns.drop_last())
    }
}

/// The identity indexes are exactly the indexes of identity columns, ascending.
pub proof fn lemma_identity_indexes(columns: Seq<ColumnView>)
    ensures
        identity_indexes(columns).len() <= columns.len(),
        forall|k: int|
            0 <= k < identity_indexes(columns).len() ==> 0 <= #[trigger] identity_indexes(
                columns,
            )[k] < columns.len() && columns[identity_indexes(columns)[k]].identity,
        forall|j: int, k: int|
            0 <= j < k < identity_indexes(columns).len() ==> #[trigger] identity_indexes(columns)[j]
                < #[trigger] identity_indexes(columns)[k],
        forall|i: int|
            0 <= i < columns.len() && (#[trigger] columns[i]).identity ==> identity_indexes(
                columns,
            ).contains(i),
    decreases columns.len(),
{
    if columns.len() > 0 {
        let shorter = columns.drop_last();
        lemma_identity_indexes(shorter);
        let indexes = identity_indexes(columns);
        assert forall|i: int| 0 <= i < columns.len() && (#[trigger] columns[i]).identity implies indexes.contains(i) by {
            if i == columns.len() - 1 {
                assert(indexes.last() == i);
                assert(indexes[indexes.len() - 1] == i);
            } else {
                assert(shorter[i].identity);
                let k = choose|k: int| 0 <= k < identity_indexes(shorter).len() && identity_indexes(shorter)[k] == i;
                assert(indexes[k] == i);
            }
        }
    }
}

impl View for ReplicatedTableSchema {
    type V = SchemaView;

    closed spec fn view(&self) -> SchemaView {
        SchemaView { name: self.name@, columns: column_views(self.columns@) }
    }
}

impl ReplicatedTableSchema {
    /// Creates a schema from its replicated columns.
    pub fn new(name: &str, columns: Vec<ColumnSchema>) -> (r: ReplicatedTableSchema)
        ensures
            r@ == (SchemaView { name: name@, columns: column_views(columns@) }),
    {
        ReplicatedTableSchema { name: name.to_owned(), columns }
    }

    /// Returns the source table name.
    pub fn name(&self) -> (r: &str)
        ensures
            r@ == self@.name,
    {
        self.name.as_str()
    }

    /// Returns the replicated columns in write order.
    pub fn column_schemas(&self) -> (r: &Vec<ColumnSchema>)
        ensures
            column_views(r@) == self@.columns,
    {
        &self.columns
    }

    /// Returns the indexes of the replica identity columns.
    pub fn identity_column_indexes(&self) -> (r: Vec<usize>)
        ensures
            r@.map_values(|i: usize| i as int) == identity_indexes(self@.columns),
    {
        let mut indexes: Vec<usize> = Vec::new();
        let ghost all = self@.columns;
        assert(all.take(0) =~= Seq::<ColumnView>::empty());
        for i in 0..self.columns.len()
            invariant
                all == column_views(self.columns@),
                indexes@.map_values(|i: usize| i as int) == identity_indexes(all.take(i as int)),
        {
            let ghost longer = all.take(i + 1);
            assert(longer.drop_last() =~= all.take(i as int));
            assert(longer.last() == self.columns@[i as int]@);
            if self.columns[i].identity {
                indexes.push(i);
            }
            assert(indexes@.map_values(|i: usize| i as int) =~= identity_indexes(longer));
        }
        assert(all.take(all.len() as int) =~= all);
        indexes
    }
}

/// Name of the attached lake catalog.
pub const LAKE_CATALOG: &'static str = "lake";

/// Prefix reserved for helper tables.
pub const HELPER_TABLE_PREFIX: &'static str = "__etl_";

/// A destination table, named by its lake schema and table.
#[derive(Debug, PartialEq)]
pub struct DuckLakeTableName {
    pub schema: String,
    pub table: String,
}

/// Contents of a [`DuckLakeTableName`].
pub struct TableNameView {
    pub schema: Seq<char>,
    pub table: Seq<char>,
}

impl View for DuckLakeTableName {
    type V = TableNameView;

    open spec fn view(&self) -> TableNameView {
        TableNameView { schema: self.schema@, table: self.table@ }
    }
}

impl Clone for DuckLakeTableName {
    fn clone(&self) -> (r: DuckLakeTableName)
        ensures
            r@ == self@,
    {
        DuckLakeTableName { schema: self.schema.clone(), table: self.table.clone() }
    }
}

/// The identifier of a table in replay bookkeeping: `schema.table`.
pub open spec fn table_id(name: TableNameView) -> Seq<char> {
    name.schema + "."@ + name.table
}

/// The quoted three-part name of a table in the lake.
pub open spec fn lake_table(name: TableNameView) -> Seq<char> {
    crate::text::quoted(LAKE_CATALOG@) + "."@ + crate::text::quoted(name.schema) + "."@
        + crate::text::quoted(name.table)
}

impl DuckLakeTableName {
    /// Creates a table name.
    pub fn new(schema: &str, table: &str) -> (r: DuckLakeTableName)
        ensures
            r@ == (TableNameView { schema: schema@, table: table@ }),
    {
        DuckLakeTableName { schema: schema.to_owned(), table: table.to_owned() }
    }

    /// Returns the identifier used in replay bookkeeping.
    pub fn id(&self) -> (r: String)
        ensures
            r@ == table_id(self@),
    {
        let mut id = self.schema.clone();
        id.append(".");
        id.append(self.table.as_str());
        id
    }

    /// Returns whether two names denote the same table.
    pub fn same_as(&self, other: &DuckLakeTableName) -> (r: bool)
        ensures
            r == (self@ == other@),
    {
        self.schema == other.schema && self.table == other.table
    }

    /// Returns whether this names a helper table, which table discovery hides.
    pub fn is_internal_helper(&self) -> (r: bool)
        ensures
            r == HELPER_TABLE_PREFIX@.is_prefix_of(self@.table),
    {
        starts_with(self.table.as_str(), HELPER_TABLE_PREFIX)
    }
}

/// Returns whether `text` starts with `prefix`.
pub fn starts_with(text: &str, prefix: &str) -> (r: bool)
    ensures
        r == prefix@.is_prefix_of(text@),
{
    let length: usize = prefix.unicode_len();
    if text.unicode_len() < length {
        return false;
    }
    for i in 0..length
        invariant
            length == prefix@.len(),
            length <= text@.len(),
            forall|j: int| 0 <= j < i ==> prefix@[j] == text@[j],
    {
        if text.get_char(i) != prefix.get_char(i) {
            return false;
        }
    }
    assert(prefix@ =~= text@.subrange(0, prefix@.len() as int));
    true
}

/// Renders the quoted three-part name of a lake table.
pub fn qualified_lake_table_name(name: &DuckLakeTableName) -> (r: String)
    ensures
        r@ == lake_table(name@),
{
    let mut text = quote_identifier(LAKE_CATALOG);
    text.append(".");
    text.append(quote_identifier(name.schema.as_str()).as_str());
    text.append(".");
    text.append(quote_identifier(name.table.as_str()).as_str());
    text
}

/// The positions of the identity columns, in column order.
pub open spec fn identity_positions(columns: Seq<ColumnSchema>) -> Seq<int> {
    Seq::new(columns.len(), |i: int| i).filter(|i: int| columns[i].identity)
}

proof fn lemma_identity_positions(columns: Seq<ColumnSchema>, count: nat)
    requires
        count <= columns.len(),
    ensures
        identity_indexes(column_views(columns.take(count as int))) == Seq::new(
            count,
            |i: int| i,
        ).filter(|i: int| columns[i].identity),
    decreases count,
{
    reveal(Seq::filter);
    let views = column_views(columns.take(count as int));
    let positions = Seq::new(count, |i: int| i);
    if count > 0 {
        let fewer = (count - 1) as nat;
        lemma_identity_positions(columns, fewer);
        assert(views.drop_last() =~= column_views(columns.take(fewer as int)));
        assert(positions.drop_last() =~= Seq::new(fewer, |i: int| i));
        assert(positions.last() == count - 1);
        assert(views.last() == columns[count - 1]@);
    }
}

/// The identity indexes of a table are the positions of its identity columns, all
/// of them, in column order.
pub proof fn law_identity_indexes_are_the_identity_columns(columns: Seq<ColumnSchema>)
    ensures
        identity_indexes(column_views(columns)) == identity_positions(columns),
{
    lemma_identity_positions(columns, columns.len());
    assert(columns.take(columns.len() as int) =~= columns);
}

/// A column's lake name is its name in small letters, quoted.
pub proof fn law_lake_column_reads_back(column: ColumnSchema)
    ensures
        identifier(lake_column(column@)) == Some(lowered(column.name@)),
{
    law_identifier_reads_back(lowered(column.name@));
}

/// A table's lake name is the catalog, the schema and the table, each quoted, with
/// points between them.
pub proof fn law_lake_table_reads_back(name: DuckLakeTableName)
    ensures
        exists|catalog: Seq<char>, schema: Seq<char>, table: Seq<char>|
            #![trigger identifier(catalog), identifier(schema), identifier(table)]
            {
                &&& lake_table(name@) == catalog + "."@ + schema + "."@ + table
                &&& identifier(catalog) == Some("lake"@)
                &&& identifier(schema) == Some(name.schema@)
                &&& identifier(table) == Some(name.table@)
            },
        table_id(name@) == name.schema@ + "."@ + name.table@,
{
    law_identifier_reads_back("lake"@);
    law_identifier_reads_back(name.schema@);
    law_identifier_reads_back(name.table@);
    let catalog = crate::text::quoted("lake"@);
    let schema = crate::text::quoted(name.schema@);
    let table = crate::text::quoted(name.table@);
    assert(identifier(catalog) is Some && identifier(schema) is Some && identifier(table) is Some);
}

} // verus!
