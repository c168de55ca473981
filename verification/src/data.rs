//! Row values as plain data.

use vstd::prelude::*;
use vstd::utf8::encode_utf8;

verus! {

/// What a text-valued scalar stands for.
///
/// Numbers without a machine integer, dates, times and documents are held as
/// their canonical text.
#[derive(Clone, Copy, Debug, PartialEq, Eq, Structural)]
pub enum TextKind {
    Plain,
    Float4,
    Float8,
    Numeric,
    Date,
    Time,
    TimeTz,
    Timestamp,
    TimestampTz,
    Json,
}

/// One value that is neither `NULL` nor an array.
#[derive(Debug, PartialEq)]
pub enum Scalar {
    Bool(bool),
    I16(i16),
    I32(i32),
    U32(u32),
    I64(i64),
    Uuid(u128),
    Bytes(Vec<u8>),
    Text(TextKind, String),
}

/// Contents of a [`Scalar`].
pub enum ScalarView {
    Bool(bool),
    I16(i16),
    I32(i32),
    U32(u32),
    I64(i64),
    Uuid(u128),
    Bytes(Seq<u8>),
    Text(TextKind, Seq<char>),
}

impl View for Scalar {
    type V = ScalarView;

    open spec fn view(&self) -> ScalarView {
        match *self {
            Scalar::Bool(value) => ScalarView::Bool(value),
            Scalar::I16(value) => ScalarView::I16(value),
            Scalar::I32(value) => ScalarView::I32(value),
            Scalar::U32(value) => ScalarView::U32(value),
            Scalar::I64(value) => ScalarView::I64(value),
            Scalar::Uuid(value) => ScalarView::Uuid(value),
            Scalar::Bytes(value) => ScalarView::Bytes(value@),
            Scalar::Text(kind, value) => ScalarView::Text(kind, value@),
        }
    }
}

fn clone_bytes(bytes: &Vec<u8>) -> (r: Vec<u8>)
    ensures
        r@ == bytes@,
{
    let mut copy: Vec<u8> = Vec::new();
    for i in 0..bytes.len()
        invariant
            copy@ == bytes@.take(i as int),
    {
        copy.push(bytes[i]);
        assert(copy@ =~= bytes@.take(i + 1));
    }
    assert(bytes@.take(bytes@.len() as int) =~= bytes@);
    copy
}

impl Clone for Scalar {
    fn clone(&self) -> (r: Scalar)
        ensures
            r@ == self@,
    {
        match self {
            Scalar::Bool(value) => Scalar::Bool(*value),
            Scalar::I16(value) => Scalar::I16(*value),
            Scalar::I32(value) => Scalar::I32(*value),
            Scalar::U32(value) => Scalar::U32(*value),
            Scalar::I64(value) => Scalar::I64(*value),
            Scalar::Uuid(value) => Scalar::Uuid(*value),
            Scalar::Bytes(value) => Scalar::Bytes(clone_bytes(value)),
            Scalar::Text(kind, value) => Scalar::Text(*kind, value.clone()),
        }
    }
}

/// One column value of a row.
#[derive(Debug, PartialEq)]
pub enum Cell {
    Null,
    Value(Scalar),
    Array(Vec<Option<Scalar>>),
}

/// Contents of a [`Cell`].
pub enum CellView {
    Null,
    Value(ScalarView),
    Array(Seq<Option<ScalarView>>),
}

/// Contents of an optional array element.
pub open spec fn element_view(element: Option<Scalar>) -> Option<ScalarView> {
    match element {
        None => None,
        Some(scalar) => Some(scalar@),
    }
}

/// Contents of array elements.
pub open spec fn element_views(elements: Seq<Option<Scalar>>) -> Seq<Option<ScalarView>> {
    elements.map_values(|e: Option<Scalar>| element_view(e))
}

impl View for Cell {
    type V = CellView;

    open spec fn view(&self) -> CellView {
        match *self {
            Cell::Null => CellView::Null,
            Cell::Value(scalar) => CellView::Value(scalar@),
            Cell::Array(elements) => CellView::Array(element_views(elements@)),
        }
    }
}

impl Clone for Cell {
    fn clone(&self) -> (r: Cell)
        ensures
            r@ == self@,
    {
        match self {
            Cell::Null => Cell::Null,
            Cell::Value(scalar) => Cell::Value(scalar.clone()),
            Cell::Array(elements) => {
                let mut copy: Vec<Option<Scalar>> = Vec::new();
                for i in 0..elements.len()
                    invariant
                        element_views(copy@) == element_views(elements@.take(i as int)),
                {
                    let element = match &elements[i] {
                        None => None,
                        Some(scalar) => Some(scalar.clone()),
                    };
                    copy.push(element);
                    assert(element_views(copy@) =~= element_views(elements@.take(i + 1))) by {
                        assert(element_views(elements@.take(i + 1)) =~= element_views(
                            elements@.take(i as int),
                        ).push(element_view(elements@[i as int])));
                        assert(element_views(copy@) =~= element_views(copy@.drop_last()).push(
                            element_view(element),
                        ));
                        assert(copy@.drop_last().len() == i);
                    }
                }
                assert(elements@.take(elements@.len() as int) =~= elements@);
                Cell::Array(copy)
            },
        }
    }
}

/// Contents of a list of cells.
pub open spec fn cell_views(cells: Seq<Cell>) -> Seq<CellView> {
    cells.map_values(|c: Cell| c@)
}

/// One full row, or the replica identity values of one row.
#[derive(Debug, PartialEq)]
pub struct TableRow {
    pub values: Vec<Cell>,
}

impl View for TableRow {
    type V = Seq<CellView>;

    open spec fn view(&self) -> Seq<CellView> {
        cell_views(self.values@)
    }
}

impl TableRow {
    /// Creates a row.
    pub fn new(values: Vec<Cell>) -> (r: TableRow)
        ensures
            r@ == cell_views(values@),
    {
        TableRow { values }
    }

    /// Returns the values of the row.
    pub fn values(&self) -> (r: &Vec<Cell>)
        ensures
            cell_views(r@) == self@,
    {
        &self.values
    }
}

impl Clone for TableRow {
    fn clone(&self) -> (r: TableRow)
        ensures
            r@ == self@,
    {
        let mut copy: Vec<Cell> = Vec::new();
        for i in 0..self.values.len()
            invariant
                cell_views(copy@) == cell_views(self.values@.take(i as int)),
        {
            copy.push(self.values[i].clone());
            assert(cell_views(copy@) =~= cell_views(copy@.drop_last()).push(copy@.last()@));
            assert(cell_views(self.values@.take(i + 1)) =~= cell_views(
                self.values@.take(i as int),
            ).push(self.values@[i as int]@));
        }
        assert(self.values@.take(self.values@.len() as int) =~= self.values@);
        TableRow { values: copy }
    }
}

/// Contents of a list of rows.
pub open spec fn row_views(rows: Seq<TableRow>) -> Seq<Seq<CellView>> {
    rows.map_values(|r: TableRow| r@)
}

/// The old image of a row: every column, or the replica identity alone.
#[derive(Debug, PartialEq)]
pub enum OldTableRow {
    Full(TableRow),
    Key(TableRow),
}

/// Contents of an [`OldTableRow`].
pub enum OldRowView {
    Full(Seq<CellView>),
    Key(Seq<CellView>),
}

impl View for OldTableRow {
    type V = OldRowView;

    open spec fn view(&self) -> OldRowView {
        match *self {
            OldTableRow::Full(row) => OldRowView::Full(row@),
            OldTableRow::Key(row) => OldRowView::Key(row@),
        }
    }
}

/// A row image that leaves columns out: the present values in column order,
/// and the indexes of the columns without one.
#[derive(Debug, PartialEq)]
pub struct PartialTableRow {
    pub total_columns: usize,
    pub row: TableRow,
    pub missing: Vec<usize>,
}

/// Contents of a [`PartialTableRow`].
pub struct PartialRowView {
    pub total: nat,
    pub values: Seq<CellView>,
    pub missing: Seq<int>,
}

/// Column indexes as integers.
pub open spec fn index_views(indexes: Seq<usize>) -> Seq<int> {
    indexes.map_values(|i: usize| i as int)
}

impl View for PartialTableRow {
    type V = PartialRowView;

    open spec fn view(&self) -> PartialRowView {
        PartialRowView {
            total: self.total_columns as nat,
            values: self.row@,
            missing: index_views(self.missing@),
        }
    }
}

impl PartialTableRow {
    /// Creates a partial row.
    pub fn new(total_columns: usize, row: TableRow, missing: Vec<usize>) -> (r: PartialTableRow)
        ensures
            r@ == (PartialRowView {
                total: total_columns as nat,
                values: row@,
                missing: index_views(missing@),
            }),
    {
        PartialTableRow { total_columns, row, missing }
    }
}

/// The new image of an updated row.
#[derive(Debug, PartialEq)]
pub enum UpdatedTableRow {
    Full(TableRow),
    Partial(PartialTableRow),
}

/// Contents of an [`UpdatedTableRow`].
pub enum UpdatedRowView {
    Full(Seq<CellView>),
    Partial(PartialRowView),
}

impl View for UpdatedTableRow {
    type V = UpdatedRowView;

    open spec fn view(&self) -> UpdatedRowView {
        match *self {
            UpdatedTableRow::Full(row) => UpdatedRowView::Full(row@),
            UpdatedTableRow::Partial(row) => UpdatedRowView::Partial(row@),
        }
    }
}

/// Sum of two sizes, capped at the largest machine size.
pub open spec fn capped_sum(left: nat, right: nat) -> nat {
    if left + right > usize::MAX {
        usize::MAX as nat
    } else {
        left + right
    }
}

/// The decoded payload bytes of one scalar.
pub open spec fn scalar_size(scalar: ScalarView) -> nat {
    match scalar {
        ScalarView::Bool(_) => 1,
        ScalarView::I16(_) => 2,
        ScalarView::I32(_) => 4,
        ScalarView::U32(_) => 4,
        ScalarView::I64(_) => 8,
        ScalarView::Uuid(_) => 16,
        ScalarView::Bytes(bytes) => bytes.len(),
        ScalarView::Text(_, text) => encode_utf8(text).len(),
    }
}

/// The decoded payload bytes of array elements.
pub open spec fn elements_size(elements: Seq<Option<ScalarView>>) -> nat
    decreases elements.len(),
{
    if elements.len() == 0 {
        0
    } else {
        capped_sum(
            elements_size(elements.drop_last()),
            match elements.last() {
                None => 0,
                Some(scalar) => scalar_size(scalar),
            },
        )
    }
}

/// The decoded payload bytes of one cell.
pub open spec fn cell_size(cell: CellView) -> nat {
    match cell {
        CellView::Null => 0,
        CellView::Value(scalar) => scalar_size(scalar),
        CellView::Array(elements) => elements_size(elements),
    }
}

/// The decoded payload bytes of a row, capped at the largest machine size.
pub open spec fn row_size(cells: Seq<CellView>) -> nat
    decreases cells.len(),
{
    if cells.len() == 0 {
        0
    } else {
        capped_sum(row_size(cells.drop_last()), cell_size(cells.last()))
    }
}

fn scalar_size_hint(scalar: &Scalar) -> (r: usize)
    ensures
        r == scalar_size(scalar@),
{
    match scalar {
        Scalar::Bool(_) => 1,
        Scalar::I16(_) => 2,
        Scalar::I32(_) => 4,
        Scalar::U32(_) => 4,
        Scalar::I64(_) => 8,
        Scalar::Uuid(_) => 16,
        Scalar::Bytes(bytes) => bytes.len(),
        Scalar::Text(_, text) => text.as_str().as_bytes().len(),
    }
}

fn cell_size_hint(cell: &Cell) -> (r: usize)
    ensures
        r == cell_size(cell@),
{
    match cell {
        Cell::Null => 0,
        Cell::Value(scalar) => scalar_size_hint(scalar),
        Cell::Array(elements) => {
            let mut total: usize = 0;
            let ghost views = element_views(elements@);
            for i in 0..elements.len()
                invariant
                    views == element_views(elements@),
                    total == elements_size(views.take(i as int)),
            {
                let size: usize = match &elements[i] {
                    None => 0,
                    Some(scalar) => scalar_size_hint(scalar),
                };
                total = total.saturating_add(size);
                assert(views.take(i + 1).drop_last() =~= views.take(i as int));
                assert(views.take(i + 1).last() == element_view(elements@[i as int]));
            }
            assert(views.take(elements@.len() as int) =~= views);
            total
        },
    }
}

impl TableRow {
    /// Returns the approximate decoded bytes of the row.
    pub fn size_hint(&self) -> (r: usize)
        ensures
            r == row_size(self@),
    {
        let mut total: usize = 0;
        let ghost views = self@;
        for i in 0..self.values.len()
            invariant
                views == cell_views(self.values@),
                total == row_size(views.take(i as int)),
        {
            total = total.saturating_add(cell_size_hint(&self.values[i]));
            assert(views.take(i + 1).drop_last() =~= views.take(i as int));
            assert(views.take(i + 1).last() == self.values@[i as int]@);
        }
        assert(views.take(self.values@.len() as int) =~= views);
        total
    }
}

/// The values an old row image carries.
pub open spec fn old_row_cells(row: OldRowView) -> Seq<CellView> {
    match row {
        OldRowView::Full(cells) => cells,
        OldRowView::Key(cells) => cells,
    }
}

/// The values an updated row image carries.
pub open spec fn updated_row_cells(row: UpdatedRowView) -> Seq<CellView> {
    match row {
        UpdatedRowView::Full(cells) => cells,
        UpdatedRowView::Partial(partial) => partial.values,
    }
}

impl OldTableRow {
    /// Returns the approximate decoded bytes of the image.
    pub fn size_hint(&self) -> (r: usize)
        ensures
            r == row_size(old_row_cells(self@)),
    {
        match self {
            OldTableRow::Full(row) => row.size_hint(),
            OldTableRow::Key(row) => row.size_hint(),
        }
    }
}

impl UpdatedTableRow {
    /// Returns the approximate decoded bytes of the image.
    pub fn size_hint(&self) -> (r: usize)
        ensures
            r == row_size(updated_row_cells(self@)),
    {
        match self {
            UpdatedTableRow::Full(row) => row.size_hint(),
            UpdatedTableRow::Partial(partial) => partial.row.size_hint(),
        }
    }
}

/// The bytes one value takes: the bytes of a text in UTF-8, those of a blob, and
/// those of the machine type of any other value.
pub open spec fn value_bytes(scalar: Scalar) -> nat {
    match scalar {
        Scalar::Text(_, text) => encode_utf8(text@).len(),
        Scalar::Bytes(bytes) => bytes@.len(),
        Scalar::Bool(_) => 1,
        Scalar::I16(_) => (i16::BITS / u8::BITS) as nat,
        Scalar::I32(_) => (i32::BITS / u8::BITS) as nat,
        Scalar::U32(_) => (u32::BITS / u8::BITS) as nat,
        Scalar::I64(_) => (i64::BITS / u8::BITS) as nat,
        Scalar::Uuid(_) => (u128::BITS / u8::BITS) as nat,
    }
}

/// The bytes of the elements of an array.
pub open spec fn element_bytes(elements: Seq<Option<Scalar>>) -> nat
    decreases elements.len(),
{
    if elements.len() == 0 {
        0
    } else {
        element_bytes(elements.drop_last()) + match elements.last() {
            None => 0,
            Some(scalar) => value_bytes(scalar),
        }
    }
}

/// The bytes of the values of cells, without a cap.
pub open spec fn cell_bytes(cells: Seq<Cell>) -> nat
    decreases cells.len(),
{
    if cells.len() == 0 {
        0
    } else {
        cell_bytes(cells.drop_last()) + match cells.last() {
            Cell::Null => 0,
            Cell::Value(scalar) => value_bytes(scalar),
            Cell::Array(elements) => element_bytes(elements@),
        }
    }
}

/// A number of bytes, or the largest machine size where that is smaller.
pub open spec fn at_most_machine(bytes: nat) -> nat {
    if bytes > usize::MAX {
        usize::MAX as nat
    } else {
        bytes
    }
}

proof fn lemma_scalar_bytes(scalar: Scalar)
    ensures
        scalar_size(scalar@) == value_bytes(scalar),
{
}

proof fn lemma_element_bytes(elements: Seq<Option<Scalar>>)
    ensures
        elements_size(element_views(elements)) == at_most_machine(element_bytes(elements)),
    decreases elements.len(),
{
    if elements.len() > 0 {
        lemma_element_bytes(elements.drop_last());
        let views = element_views(elements);
        assert(views.drop_last() =~= element_views(elements.drop_last()));
        assert(views.last() == element_view(elements.last()));
        if elements.last() is Some {
            lemma_scalar_bytes(elements.last()->0);
        }
    } else {
        assert(element_views(elements).len() == 0);
    }
}

/// The size of a row counts every value of it, those inside arrays too, and text
/// by its bytes, up to the largest machine size.
pub proof fn law_row_size_counts_every_value(row: TableRow)
    ensures
        row_size(row@) == at_most_machine(cell_bytes(row.values@)),
{
    law_cells_size_counts_every_value(row.values@);
}

/// The size of cells counts every value of them, as that of a row does.
pub proof fn law_cells_size_counts_every_value(cells: Seq<Cell>)
    ensures
        row_size(cell_views(cells)) == at_most_machine(cell_bytes(cells)),
    decreases cells.len(),
{
    let views = cell_views(cells);
    if cells.len() > 0 {
        law_cells_size_counts_every_value(cells.drop_last());
        assert(views.drop_last() =~= cell_views(cells.drop_last()));
        assert(views.last() == cells.last()@);
        match cells.last() {
            Cell::Null => {},
            Cell::Value(scalar) => lemma_scalar_bytes(scalar),
            Cell::Array(elements) => lemma_element_bytes(elements@),
        }
    } else {
        assert(views.len() == 0);
    }
}

} // verus!
