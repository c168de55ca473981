//! SQL literals for row values, and row payloads ready for loading.

use vstd::prelude::*;

use crate::data::{
    cell_views, element_view, element_views, row_views, Cell, CellView, Scalar, ScalarView,
    TableRow,
};
use crate::external::{literal_text, quote_literal};
use crate::reading::{inside, items, law_row_literal_reads_back, reads_as};
use crate::text::{decimal_i64, decimal_int, fixed_hex, hex, join_texts, joined, texts};

verus! {

/// The hyphenated lowercase text of a UUID.
pub open spec fn uuid_text(value: u128) -> Seq<char> {
    hex((value / 0x1000000000000000000000000u128) as nat, 8) + "-"@ + hex(
        (value / 0x100000000000000000000u128) as nat,
        4,
    ) + "-"@ + hex((value / 0x10000000000000000u128) as nat, 4) + "-"@ + hex(
        (value / 0x1000000000000u128) as nat,
        4,
    ) + "-"@ + hex(value as nat, 12)
}

/// The escaped bytes of a blob literal: `\x` and two digits for each byte.
pub open spec fn blob_text(bytes: Seq<u8>) -> Seq<char>
    decreases bytes.len(),
{
    if bytes.len() == 0 {
        Seq::empty()
    } else {
        blob_text(bytes.drop_last()) + "\\x"@ + hex(bytes.last() as nat, 2)
    }
}

/// The SQL literal of one scalar.
///
/// Text-valued scalars are plain string literals, which the database casts to
/// the type of the column they meet.
pub open spec fn scalar_literal(scalar: ScalarView) -> Seq<char> {
    match scalar {
        ScalarView::Bool(value) => if value {
            "true"@
        } else {
            "false"@
        },
        ScalarView::I16(value) => decimal_int(value as int),
        ScalarView::I32(value) => decimal_int(value as int),
        ScalarView::U32(value) => decimal_int(value as int),
        ScalarView::I64(value) => decimal_int(value as int),
        ScalarView::Uuid(value) => "CAST('"@ + uuid_text(value) + "' AS UUID)"@,
        ScalarView::Bytes(bytes) => "CAST('"@ + blob_text(bytes) + "' AS BLOB)"@,
        ScalarView::Text(_, text) => literal_text(text),
    }
}

/// The SQL literal of one array element.
pub open spec fn element_literal(element: Option<ScalarView>) -> Seq<char> {
    match element {
        None => "NULL"@,
        Some(scalar) => scalar_literal(scalar),
    }
}

/// The SQL literals of array elements.
pub open spec fn element_literals(elements: Seq<Option<ScalarView>>) -> Seq<Seq<char>> {
    elements.map_values(|e: Option<ScalarView>| element_literal(e))
}

/// The SQL literal of one cell.
pub open spec fn cell_literal(cell: CellView) -> Seq<char> {
    match cell {
        CellView::Null => "NULL"@,
        CellView::Value(scalar) => scalar_literal(scalar),
        CellView::Array(elements) => "["@ + joined(element_literals(elements), ", "@) + "]"@,
    }
}

/// The SQL literals of the cells of a row.
pub open spec fn cell_literals(cells: Seq<CellView>) -> Seq<Seq<char>> {
    cells.map_values(|c: CellView| cell_literal(c))
}

/// The SQL tuple of a row.
pub open spec fn row_literal(cells: Seq<CellView>) -> Seq<char> {
    "("@ + joined(cell_literals(cells), ", "@) + ")"@
}

fn uuid_to_text(value: u128) -> (r: String)
    ensures
        r@ == uuid_text(value),
{
    let mut text = fixed_hex(value / 0x1000000000000000000000000u128, 8);
    text.append("-");
    text.append(fixed_hex(value / 0x100000000000000000000u128, 4).as_str());
    text.append("-");
    text.append(fixed_hex(value / 0x10000000000000000u128, 4).as_str());
    text.append("-");
    text.append(fixed_hex(value / 0x1000000000000u128, 4).as_str());
    text.append("-");
    text.append(fixed_hex(value, 12).as_str());
    text
}

fn blob_to_text(bytes: &Vec<u8>) -> (r: String)
    ensures
        r@ == blob_text(bytes@),
{
    let mut text = String::new();
    assert(bytes@.take(0) =~= Seq::<u8>::empty());
    for i in 0..bytes.len()
        invariant
            text@ == blob_text(bytes@.take(i as int)),
    {
        text.append("\\x");
        text.append(fixed_hex(bytes[i] as u128, 2).as_str());
        assert(bytes@.take(i + 1).drop_last() =~= bytes@.take(i as int));
    }
    assert(bytes@.take(bytes@.len() as int) =~= bytes@);
    text
}

fn scalar_to_sql_literal(scalar: &Scalar) -> (r: String)
    ensures
        r@ == scalar_literal(scalar@),
{
    match scalar {
        Scalar::Bool(value) => if *value {
            "true".to_owned()
        } else {
            "false".to_owned()
        },
        Scalar::I16(value) => decimal_i64(*value as i64),
        Scalar::I32(value) => decimal_i64(*value as i64),
        Scalar::U32(value) => decimal_i64(*value as i64),
        Scalar::I64(value) => decimal_i64(*value),
        Scalar::Uuid(value) => {
            let mut text = "CAST('".to_owned();
            text.append(uuid_to_text(*value).as_str());
            text.append("' AS UUID)");
            text
        },
        Scalar::Bytes(bytes) => {
            let mut text = "CAST('".to_owned();
            text.append(blob_to_text(bytes).as_str());
            text.append("' AS BLOB)");
            text
        },
        Scalar::Text(_, text) => quote_literal(text.as_str()),
    }
}

/// Renders one cell as a SQL literal.
pub fn cell_to_sql_literal_ref(cell: &Cell) -> (r: String)
    ensures
        r@ == cell_literal(cell@),
{
    match cell {
        Cell::Null => "NULL".to_owned(),
        Cell::Value(scalar) => scalar_to_sql_literal(scalar),
        Cell::Array(elements) => {
            let mut parts: Vec<String> = Vec::new();
            let ghost views = element_views(elements@);
            for i in 0..elements.len()
                invariant
                    views == element_views(elements@),
                    texts(parts@) == element_literals(views.take(i as int)),
            {
                let part = match &elements[i] {
                    None => "NULL".to_owned(),
                    Some(scalar) => scalar_to_sql_literal(scalar),
                };
                let ghost held = parts@;
                parts.push(part);
                assert(views[i as int] == element_view(elements@[i as int]));
                assert(texts(parts@) =~= texts(held).push(part@));
                assert(element_literals(views.take(i + 1)) =~= element_literals(
                    views.take(i as int),
                ).push(element_literal(views[i as int])));
            }
            assert(views.take(elements@.len() as int) =~= views);
            let mut text = "[".to_owned();
            text.append(join_texts(&parts, ", ").as_str());
            text.append("]");
            text
        },
    }
}

/// Renders one row as a SQL tuple.
pub fn table_row_to_sql_literal_ref(row: &TableRow) -> (r: String)
    ensures
        r@ == row_literal(row@),
{
    let mut parts: Vec<String> = Vec::new();
    let ghost views = row@;
    for i in 0..row.values.len()
        invariant
            views == cell_views(row.values@),
            texts(parts@) == cell_literals(views.take(i as int)),
    {
        let part = cell_to_sql_literal_ref(&row.values[i]);
        let ghost held = parts@;
        parts.push(part);
        assert(views[i as int] == row.values@[i as int]@);
        assert(texts(parts@) =~= texts(held).push(part@));
        assert(cell_literals(views.take(i + 1)) =~= cell_literals(views.take(i as int)).push(
            cell_literal(views[i as int]),
        ));
    }
    assert(views.take(row.values@.len() as int) =~= views);
    let mut text = "(".to_owned();
    text.append(join_texts(&parts, ", ").as_str());
    text.append(")");
    text
}

/// A row payload in the form it is loaded in.
#[derive(Debug, PartialEq)]
pub enum PreparedRows {
    /// Rows appended value by value.
    Appender(Vec<TableRow>),
    /// Rows appended as one columnar batch.
    ArrowRecordBatch(Vec<TableRow>),
    /// Rows inserted as SQL tuples, for nested values the appender cannot take.
    SqlLiterals(Vec<String>),
}

/// Contents of [`PreparedRows`].
pub enum PreparedRowsView {
    Appender(Seq<Seq<CellView>>),
    ArrowRecordBatch(Seq<Seq<CellView>>),
    SqlLiterals(Seq<Seq<char>>),
}

impl View for PreparedRows {
    type V = PreparedRowsView;

    open spec fn view(&self) -> PreparedRowsView {
        match *self {
            PreparedRows::Appender(rows) => PreparedRowsView::Appender(row_views(rows@)),
            PreparedRows::ArrowRecordBatch(rows) => PreparedRowsView::ArrowRecordBatch(
                row_views(rows@),
            ),
            PreparedRows::SqlLiterals(rows) => PreparedRowsView::SqlLiterals(texts(rows@)),
        }
    }
}

/// Whether some row holds an array.
pub open spec fn has_nested(rows: Seq<Seq<CellView>>) -> bool {
    exists|i: int, j: int|
        0 <= i < rows.len() && 0 <= j < rows[i].len() && (#[trigger] rows[i][j]) is Array
}

/// The SQL tuples of rows.
pub open spec fn row_literals(rows: Seq<Seq<CellView>>) -> Seq<Seq<char>> {
    rows.map_values(|r: Seq<CellView>| row_literal(r))
}

/// How rows of streaming changes are loaded: through the appender, unless a
/// nested value forces SQL tuples.
pub open spec fn prepared_rows(rows: Seq<Seq<CellView>>) -> PreparedRowsView {
    if has_nested(rows) {
        PreparedRowsView::SqlLiterals(row_literals(rows))
    } else {
        PreparedRowsView::Appender(rows)
    }
}

fn row_has_array(row: &TableRow) -> (r: bool)
    ensures
        r == exists|j: int| 0 <= j < row@.len() && (#[trigger] row@[j]) is Array,
{
    for j in 0..row.values.len()
        invariant
            forall|k: int| 0 <= k < j ==> !((#[trigger] row@[k]) is Array),
    {
        assert(row@[j as int] == row.values@[j as int]@);
        if let Cell::Array(_) = &row.values[j] {
            assert(row@[j as int] is Array);
            return true;
        }
    }
    false
}

fn rows_have_array(rows: &Vec<TableRow>) -> (r: bool)
    ensures
        r == has_nested(row_views(rows@)),
{
    let ghost views = row_views(rows@);
    for i in 0..rows.len()
        invariant
            views == row_views(rows@),
            forall|k: int, j: int|
                0 <= k < i && 0 <= j < views[k].len() ==> !((#[trigger] views[k][j]) is Array),
    {
        assert(views[i as int] == rows@[i as int]@);
        if row_has_array(&rows[i]) {
            let ghost j = choose|j: int|
                0 <= j < rows@[i as int]@.len() && (#[trigger] rows@[i as int]@[j]) is Array;
            assert(views[i as int][j] is Array);
            return true;
        }
    }
    false
}

/// Chooses how rows of streaming changes are loaded.
pub fn prepare_rows(rows: Vec<TableRow>) -> (r: PreparedRows)
    ensures
        r@ == prepared_rows(row_views(rows@)),
{
    if !rows_have_array(&rows) {
        return PreparedRows::Appender(rows);
    }
    let mut literals: Vec<String> = Vec::new();
    let ghost views = row_views(rows@);
    for i in 0..rows.len()
        invariant
            views == row_views(rows@),
            texts(literals@) == row_literals(views.take(i as int)),
    {
        let literal = table_row_to_sql_literal_ref(&rows[i]);
        let ghost held = literals@;
        literals.push(literal);
        assert(views[i as int] == rows@[i as int]@);
        assert(texts(literals@) =~= texts(held).push(literal@));
        assert(row_literals(views.take(i + 1)) =~= row_literals(views.take(i as int)).push(
            row_literal(views[i as int]),
        ));
    }
    assert(views.take(rows@.len() as int) =~= views);
    PreparedRows::SqlLiterals(literals)
}

/// Prepares copied rows for columnar loading.
pub fn prepare_copy_rows(rows: Vec<TableRow>) -> (r: PreparedRows)
    ensures
        r@ == PreparedRowsView::ArrowRecordBatch(row_views(rows@)),
{
    PreparedRows::ArrowRecordBatch(rows)
}

/// The number of rows a payload carries.
pub open spec fn payload_rows(rows: PreparedRowsView) -> nat {
    match rows {
        PreparedRowsView::Appender(rows) => rows.len(),
        PreparedRowsView::ArrowRecordBatch(rows) => rows.len(),
        PreparedRowsView::SqlLiterals(rows) => rows.len(),
    }
}

/// Returns the number of rows a payload carries.
pub fn prepared_rows_count(rows: &PreparedRows) -> (r: usize)
    ensures
        r == payload_rows(rows@),
{
    match rows {
        PreparedRows::Appender(rows) => rows.len(),
        PreparedRows::ArrowRecordBatch(rows) => rows.len(),
        PreparedRows::SqlLiterals(rows) => rows.len(),
    }
}

/// The metric label of a payload's loading strategy.
pub open spec fn payload_kind(rows: PreparedRowsView) -> Seq<char> {
    match rows {
        PreparedRowsView::Appender(_) => "appender"@,
        PreparedRowsView::ArrowRecordBatch(_) => "arrow_record_batch"@,
        PreparedRowsView::SqlLiterals(_) => "sql_literals"@,
    }
}

/// Returns the metric label of a payload's loading strategy.
pub fn prepared_rows_kind(rows: &PreparedRows) -> (r: &'static str)
    ensures
        r@ == payload_kind(rows@),
{
    match rows {
        PreparedRows::Appender(_) => "appender",
        PreparedRows::ArrowRecordBatch(_) => "arrow_record_batch",
        PreparedRows::SqlLiterals(_) => "sql_literals",
    }
}

/// A payload holds every row it was made from, once and in order: as the rows
/// themselves, or, where some value is an array, as SQL tuples that read back as the
/// values of their rows.
pub proof fn law_payload_holds_every_row(rows: Seq<TableRow>)
    ensures
        ({
            let nested = exists|i: int, j: int|
                0 <= i < rows.len() && 0 <= j < rows[i].values@.len() && (
                #[trigger] rows[i].values@[j]) is Array;
            let payload = prepared_rows(row_views(rows));
            &&& payload_rows(payload) == rows.len()
            &&& !nested ==> (payload matches PreparedRowsView::Appender(held) && held.len()
                == rows.len() && forall|i: int|
                0 <= i < rows.len() ==> #[trigger] held[i] == rows[i]@)
            &&& nested ==> (payload matches PreparedRowsView::SqlLiterals(tuples) && tuples.len()
                == rows.len() && forall|i: int, j: int|
                #![trigger tuples[i], rows[i].values@[j]]
                0 <= i < rows.len() && 0 <= j < rows[i].values@.len() ==> {
                    let body = inside(tuples[i], "("@, ")"@);
                    &&& body is Some
                    &&& items(body->0).len() == rows[i].values@.len()
                    &&& reads_as(items(body->0)[j], rows[i].values@[j])
                })
        }),
{
    let views = row_views(rows);
    let nested = exists|i: int, j: int|
        0 <= i < rows.len() && 0 <= j < rows[i].values@.len() && (
        #[trigger] rows[i].values@[j]) is Array;
    if nested {
        let (i, j) = choose|i: int, j: int|
            0 <= i < rows.len() && 0 <= j < rows[i].values@.len() && (
            #[trigger] rows[i].values@[j]) is Array;
        assert(views[i][j] is Array);
        let tuples = row_literals(views);
        assert forall|i: int, j: int|
            #![trigger tuples[i], rows[i].values@[j]]
            0 <= i < rows.len() && 0 <= j < rows[i].values@.len() implies {
            let body = inside(tuples[i], "("@, ")"@);
            &&& body is Some
            &&& items(body->0).len() == rows[i].values@.len()
            &&& reads_as(items(body->0)[j], rows[i].values@[j])
        } by {
            law_row_literal_reads_back(rows[i]);
            assert(tuples[i] == row_literal(rows[i]@));
        }
    } else {
        assert(!has_nested(views)) by {
            if has_nested(views) {
                let (i, j) = choose|i: int, j: int|
                    0 <= i < views.len() && 0 <= j < views[i].len() && (
                    #[trigger] views[i][j]) is Array;
                assert(rows[i].values@[j] is Array);
            }
        }
    }
}

/// Payloads are told apart by the labels of their forms.
pub proof fn law_payload_labels_tell_forms_apart(rows: PreparedRows, other: PreparedRows)
    ensures
        payload_kind(rows@) == payload_kind(other@) <==> (rows is Appender) == (other is Appender)
            && (rows is SqlLiterals) == (other is SqlLiterals),
{
    reveal_strlit("appender");
    reveal_strlit("arrow_record_batch");
    reveal_strlit("sql_literals");
    assert("appender"@.len() == 8 && "arrow_record_batch"@.len() == 18 && "sql_literals"@.len()
        == 12);
}

} // verus!
