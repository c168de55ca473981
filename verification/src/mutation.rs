//! Event-level table mutations and their prepared form.

use vstd::prelude::*;

use crate::data::{
    at_most_machine, capped_sum, cell_bytes, law_row_size_counts_every_value, old_row_cells,
    row_size, updated_row_cells, CellView, OldRowView, OldTableRow, TableRow, UpdatedRowView,
    UpdatedTableRow,
};
use crate::error::optional_text;
use crate::literal::{PreparedRows, PreparedRowsView};
use crate::text::texts;

verus! {

/// One table mutation, to be applied in source order.
#[derive(Debug, PartialEq)]
pub enum TableMutation {
    Insert(TableRow),
    Delete(OldTableRow),
    Update { delete_row: OldTableRow, new_row: UpdatedTableRow },
    Replace(TableRow),
}

/// Contents of a [`TableMutation`].
pub enum MutationView {
    Insert(Seq<CellView>),
    Delete(OldRowView),
    Update { delete_row: OldRowView, new_row: UpdatedRowView },
    Replace(Seq<CellView>),
}

impl View for TableMutation {
    type V = MutationView;

    open spec fn view(&self) -> MutationView {
        match *self {
            TableMutation::Insert(row) => MutationView::Insert(row@),
            TableMutation::Delete(row) => MutationView::Delete(row@),
            TableMutation::Update { delete_row, new_row } => MutationView::Update {
                delete_row: delete_row@,
                new_row: new_row@,
            },
            TableMutation::Replace(row) => MutationView::Replace(row@),
        }
    }
}

/// Contents of a list of mutations.
pub open spec fn mutation_views(mutations: Seq<TableMutation>) -> Seq<MutationView> {
    mutations.map_values(|m: TableMutation| m@)
}

/// The decoded payload bytes one mutation carries.
pub open spec fn mutation_size(mutation: MutationView) -> nat {
    match mutation {
        MutationView::Insert(row) => row_size(row),
        MutationView::Replace(row) => row_size(row),
        MutationView::Delete(row) => row_size(old_row_cells(row)),
        MutationView::Update { delete_row, new_row } => capped_sum(
            row_size(old_row_cells(delete_row)),
            row_size(updated_row_cells(new_row)),
        ),
    }
}

/// Returns the approximate decoded bytes one mutation carries.
pub fn mutation_size_hint(mutation: &TableMutation) -> (r: usize)
    ensures
        r == mutation_size(mutation@),
{
    match mutation {
        TableMutation::Insert(row) => row.size_hint(),
        TableMutation::Replace(row) => row.size_hint(),
        TableMutation::Delete(row) => row.size_hint(),
        TableMutation::Update { delete_row, new_row } => delete_row.size_hint().saturating_add(
            new_row.size_hint(),
        ),
    }
}

/// Which mutations a delete statement stands for.
#[derive(Clone, Copy, Debug, PartialEq, Eq, Structural)]
pub enum DeleteOrigin {
    Delete,
    Replace,
    Update,
    Mixed,
}

impl DeleteOrigin {
    /// The metric label of the origin.
    pub open spec fn label(self) -> Seq<char> {
        match self {
            DeleteOrigin::Delete => "delete"@,
            DeleteOrigin::Replace => "replace"@,
            DeleteOrigin::Update => "update"@,
            DeleteOrigin::Mixed => "mixed"@,
        }
    }

    /// Returns the metric label of the origin.
    pub fn as_str(self) -> (r: &'static str)
        ensures
            r@ == self.label(),
    {
        match self {
            DeleteOrigin::Delete => "delete",
            DeleteOrigin::Replace => "replace",
            DeleteOrigin::Update => "update",
            DeleteOrigin::Mixed => "mixed",
        }
    }
}

/// One prepared statement of an atomic batch.
#[derive(Debug, PartialEq)]
pub enum PreparedTableMutation {
    /// Appends rows.
    Upsert(PreparedRows),
    /// Removes the rows of identities, by their predicates or, where the
    /// identity is canonical, by one key set.
    Delete { predicates: Vec<String>, key_set: Option<String>, origin: DeleteOrigin },
    /// Updates the rows of one identity in place.
    Update { assignments: Vec<String>, predicate: String },
}

/// Contents of a [`PreparedTableMutation`].
pub enum PreparedView {
    Upsert(PreparedRowsView),
    Delete { predicates: Seq<Seq<char>>, key_set: Option<Seq<char>>, origin: DeleteOrigin },
    Update { assignments: Seq<Seq<char>>, predicate: Seq<char> },
}

impl View for PreparedTableMutation {
    type V = PreparedView;

    open spec fn view(&self) -> PreparedView {
        match *self {
            PreparedTableMutation::Upsert(rows) => PreparedView::Upsert(rows@),
            PreparedTableMutation::Delete { predicates, key_set, origin } => PreparedView::Delete {
                predicates: texts(predicates@),
                key_set: optional_text(key_set),
                origin,
            },
            PreparedTableMutation::Update { assignments, predicate } => PreparedView::Update {
                assignments: texts(assignments@),
                predicate: predicate@,
            },
        }
    }
}

/// Contents of a list of prepared mutations.
pub open spec fn prepared_views(prepared: Seq<PreparedTableMutation>) -> Seq<PreparedView> {
    prepared.map_values(|p: PreparedTableMutation| p@)
}

/// The bytes of every row image a mutation carries: the new one, the old one, or
/// both.
pub open spec fn image_bytes(mutation: TableMutation) -> nat {
    match mutation {
        TableMutation::Insert(row) => cell_bytes(row.values@),
        TableMutation::Replace(row) => cell_bytes(row.values@),
        TableMutation::Delete(OldTableRow::Full(row)) => cell_bytes(row.values@),
        TableMutation::Delete(OldTableRow::Key(row)) => cell_bytes(row.values@),
        TableMutation::Update { delete_row, new_row } => (match delete_row {
            OldTableRow::Full(row) => cell_bytes(row.values@),
            OldTableRow::Key(row) => cell_bytes(row.values@),
        }) + match new_row {
            UpdatedTableRow::Full(row) => cell_bytes(row.values@),
            UpdatedTableRow::Partial(partial) => cell_bytes(partial.row.values@),
        },
    }
}

/// The size of a mutation counts every value of every row image it carries, up to
/// the largest machine size. An update counts its old image and its new one.
pub proof fn law_mutation_size_counts_every_image(mutation: TableMutation)
    ensures
        mutation_size(mutation@) == at_most_machine(image_bytes(mutation)),
{
    match mutation {
        TableMutation::Insert(row) => law_row_size_counts_every_value(row),
        TableMutation::Replace(row) => law_row_size_counts_every_value(row),
        TableMutation::Delete(OldTableRow::Full(row)) => law_row_size_counts_every_value(row),
        TableMutation::Delete(OldTableRow::Key(row)) => law_row_size_counts_every_value(row),
        TableMutation::Update { delete_row, new_row } => {
            match delete_row {
                OldTableRow::Full(row) => law_row_size_counts_every_value(row),
                OldTableRow::Key(row) => law_row_size_counts_every_value(row),
            }
            match new_row {
                UpdatedTableRow::Full(row) => law_row_size_counts_every_value(row),
                UpdatedTableRow::Partial(partial) => law_row_size_counts_every_value(partial.row),
            }
        },
    }
}

/// Origins are told apart by their labels.
pub proof fn law_labels_tell_origins_apart(left: DeleteOrigin, right: DeleteOrigin)
    ensures
        left.label() == right.label() <==> left == right,
{
    reveal_strlit("delete");
    reveal_strlit("replace");
    reveal_strlit("update");
    reveal_strlit("mixed");
    if left != right {
        assert(left.label().len() != right.label().len() || left.label()[0] != right.label()[0]);
    }
}

} // verus!
