//! Normalization of full-row changes inside one atomic batch.

use vstd::hash_map::StringHashMap;
use vstd::hash_set::StringHashSet;
use vstd::prelude::*;

use crate::collect::{collect, lemma_collect, lemma_collect_fails};
use crate::data::{
    index_views, row_views, CellView, OldRowView, OldTableRow, PartialRowView, PartialTableRow,
    TableRow, UpdatedRowView, UpdatedTableRow,
};
use crate::error::{ErrorView, EtlError};
use crate::identity::{
    canonical_identity, delete_key_components, delete_predicate_from_row, has_canonical_identity,
    identity_columns, identity_text, image_fits, key_cells,
    law_canonical_identities_are_integers_and_uuids, law_identity_is_read_at_the_identity_columns,
    row_key, row_predicate, DeletePredicateRowRef,
};
use crate::key_set::{
    component_views, components_of, identity_column_names, using_clause, ComponentView,
    DeleteKeySet, KeyComponent,
};
use crate::literal::{prepare_rows, prepared_rows};
use crate::mutation::{
    mutation_views, prepared_views, DeleteOrigin, MutationView, PreparedTableMutation, PreparedView,
    TableMutation,
};
use crate::ordered::{ordered, prepare_ordered_table_mutations};
use crate::partial_row::{
    complete_partial_row, completed, ended_early_error, fits_table,
    law_assignments_write_the_carried_values, law_carried_value_stands_at_its_rank,
    lemma_fitting_row_patches, partial_assignments, patch_row, patchable, patched_row,
    update_assignments_from_partial_row,
};
use crate::partial_update::{nothing_recovered, RecoveredPartialRows, RecoveredView};
use crate::recovery_plan::old_image;
use crate::schema::{
    column_views, identity_positions, ColumnSchema, ReplicatedTableSchema, SchemaView,
};
use crate::text::texts;

verus! {

/// One statement on a table's rows.
pub enum RowOp {
    /// Removes the rows of identities.
    Delete {
        predicates: Seq<Seq<char>>,
        keys: Option<Seq<Seq<ComponentView>>>,
        origin: DeleteOrigin,
    },
    /// Appends rows.
    Insert { rows: Seq<Seq<CellView>> },
    /// Writes present values over the rows of one identity.
    Patch { predicate: Seq<char>, partial: PartialRowView },
}

/// The prepared form of a statement.
pub open spec fn rendered(schema: SchemaView, op: RowOp) -> PreparedView {
    match op {
        RowOp::Delete { predicates, keys, origin } => PreparedView::Delete {
            predicates,
            key_set: match keys {
                None => None,
                Some(keys) => Some(using_clause(identity_column_names(schema), keys)),
            },
            origin,
        },
        RowOp::Insert { rows } => PreparedView::Upsert(prepared_rows(rows)),
        RowOp::Patch { predicate, partial } => PreparedView::Update {
            assignments: partial_assignments(schema, partial)->Ok_0,
            predicate,
        },
    }
}

/// The prepared form of statements.
pub open spec fn rendered_all(schema: SchemaView, ops: Seq<RowOp>) -> Seq<PreparedView> {
    ops.map_values(|op: RowOp| rendered(schema, op))
}

/// What the normalizer holds between two events: the statements flushed so far,
/// the identities to delete, in first-deleted order, with their keys, the rows
/// to append, and what was read back.
pub struct RunView {
    pub ops: Seq<RowOp>,
    pub deleted: Seq<Seq<char>>,
    pub keys: Seq<Seq<ComponentView>>,
    pub rows: Seq<Option<Seq<CellView>>>,
    pub origin: Option<DeleteOrigin>,
    pub recovered: RecoveredView,
}

/// Whether a pending row is at the identity of `predicate`.
pub open spec fn is_at(schema: SchemaView, slot: Option<Seq<CellView>>, predicate: Seq<char>) -> bool {
    match slot {
        None => false,
        Some(row) => row_predicate(schema, OldRowView::Full(row)) == Ok::<Seq<char>, ErrorView>(
            predicate,
        ),
    }
}

/// Whether some pending row is at the identity of `predicate`.
pub open spec fn has_pending(
    schema: SchemaView,
    rows: Seq<Option<Seq<CellView>>>,
    predicate: Seq<char>,
) -> bool {
    exists|i: int| 0 <= i < rows.len() && is_at(schema, #[trigger] rows[i], predicate)
}

/// The pending rows without those at one identity.
pub open spec fn rows_without(
    schema: SchemaView,
    rows: Seq<Option<Seq<CellView>>>,
    predicate: Seq<char>,
) -> Seq<Option<Seq<CellView>>> {
    Seq::new(
        rows.len(),
        |i: int|
            if is_at(schema, rows[i], predicate) {
                None
            } else {
                rows[i]
            },
    )
}

/// The pending rows with the present values of a partial row written over those
/// at one identity.
pub open spec fn rows_patched(
    schema: SchemaView,
    rows: Seq<Option<Seq<CellView>>>,
    predicate: Seq<char>,
    partial: PartialRowView,
) -> Seq<Option<Seq<CellView>>> {
    Seq::new(
        rows.len(),
        |i: int|
            if is_at(schema, rows[i], predicate) {
                Some(patched_row(partial, rows[i]->0))
            } else {
                rows[i]
            },
    )
}

/// Patches the pending rows at one identity. A partial row that runs out of
/// values is refused as soon as there is a row to patch.
pub open spec fn patch_pending(
    schema: SchemaView,
    rows: Seq<Option<Seq<CellView>>>,
    predicate: Seq<char>,
    partial: PartialRowView,
) -> Result<Seq<Option<Seq<CellView>>>, ErrorView> {
    if has_pending(schema, rows, predicate) && !patchable(partial, schema.columns.len()) {
        Err(ended_early_error(schema))
    } else {
        Ok(rows_patched(schema, rows, predicate, partial))
    }
}

/// The pending rows that survived, in order.
pub open spec fn survivors(rows: Seq<Option<Seq<CellView>>>) -> Seq<Seq<CellView>>
    decreases rows.len(),
{
    if rows.len() == 0 {
        Seq::empty()
    } else {
        match rows.last() {
            None => survivors(rows.drop_last()),
            Some(row) => survivors(rows.drop_last()).push(row),
        }
    }
}

/// The origin once a delete of another origin joined.
pub open spec fn merged_origin(origin: Option<DeleteOrigin>, new: DeleteOrigin) -> DeleteOrigin {
    match origin {
        None => new,
        Some(previous) => if previous == new {
            previous
        } else {
            DeleteOrigin::Mixed
        },
    }
}

/// The run once an identity was deleted: earlier pending rows at that identity
/// are gone, and the identity is recorded once.
pub open spec fn with_delete(
    schema: SchemaView,
    run: RunView,
    predicate: Seq<char>,
    key: Seq<ComponentView>,
    origin: DeleteOrigin,
) -> RunView {
    RunView {
        rows: rows_without(schema, run.rows, predicate),
        deleted: if run.deleted.contains(predicate) {
            run.deleted
        } else {
            run.deleted.push(predicate)
        },
        keys: if run.deleted.contains(predicate) {
            run.keys
        } else {
            run.keys.push(key)
        },
        origin: Some(merged_origin(run.origin, origin)),
        ..run
    }
}

/// The run once a row was appended.
pub open spec fn with_insert(schema: SchemaView, run: RunView, row: Seq<CellView>) -> Result<
    RunView,
    ErrorView,
> {
    match row_predicate(schema, OldRowView::Full(row)) {
        Err(error) => Err(error),
        Ok(_) => Ok(RunView { rows: run.rows.push(Some(row)), ..run }),
    }
}

/// The run once the first `count` of `rows` were appended.
pub open spec fn with_inserts(
    schema: SchemaView,
    run: RunView,
    rows: Seq<Seq<CellView>>,
    count: nat,
) -> Result<RunView, ErrorView>
    decreases count,
{
    if count == 0 {
        Ok(run)
    } else {
        match with_inserts(schema, run, rows, (count - 1) as nat) {
            Err(error) => Err(error),
            Ok(run) => with_insert(schema, run, rows[count - 1]),
        }
    }
}

/// The run once its pending deletes and rows became statements, deletes first.
pub open spec fn flushed(run: RunView) -> RunView {
    let deletes: Seq<RowOp> = if run.deleted.len() > 0 {
        seq![
            RowOp::Delete {
                predicates: run.deleted,
                keys: Some(run.keys),
                origin: match run.origin {
                    None => DeleteOrigin::Mixed,
                    Some(origin) => origin,
                },
            },
        ]
    } else {
        Seq::empty()
    };
    let inserts: Seq<RowOp> = if run.rows.len() > 0 {
        seq![RowOp::Insert { rows: survivors(run.rows) }]
    } else {
        Seq::empty()
    };
    RunView {
        ops: run.ops + deletes + inserts,
        deleted: Seq::empty(),
        keys: Seq::empty(),
        rows: Seq::empty(),
        origin: if run.deleted.len() > 0 {
            None
        } else {
            run.origin
        },
        recovered: run.recovered,
    }
}

/// The stored rows of one identity, each completed with a partial row.
pub open spec fn completed_rows(
    schema: SchemaView,
    partial: PartialRowView,
    recovered: RecoveredView,
    predicate: Seq<char>,
) -> Result<Seq<Seq<CellView>>, ErrorView> {
    collect(
        recovered.rows[predicate].len(),
        |k: int|
            completed(
                schema,
                partial,
                index_views(recovered.columns),
                recovered.rows[predicate][k],
            ),
    )
}

/// The run once a partial update whose identity has stored rows was folded in:
/// pending rows at the identity are patched, the identity is deleted from
/// storage, and each stored row is appended completed.
pub open spec fn with_recovered_update(
    schema: SchemaView,
    run: RunView,
    predicate: Seq<char>,
    key: Seq<ComponentView>,
    partial: PartialRowView,
) -> Result<RunView, ErrorView> {
    match completed_rows(schema, partial, run.recovered, predicate) {
        Err(error) => Err(error),
        Ok(rows) => match patch_pending(schema, run.rows, predicate, partial) {
            Err(error) => Err(error),
            Ok(pending) => with_inserts(
                schema,
                RunView {
                    rows: pending,
                    deleted: run.deleted.push(predicate),
                    keys: run.keys.push(key),
                    origin: Some(merged_origin(run.origin, DeleteOrigin::Update)),
                    ..run
                },
                rows,
                rows.len(),
            ),
        },
    }
}

/// The run once a partial update was folded in.
pub open spec fn with_partial_update(
    schema: SchemaView,
    run: RunView,
    predicate: Seq<char>,
    key: Seq<ComponentView>,
    partial: PartialRowView,
) -> Result<RunView, ErrorView> {
    let stored = run.recovered.rows;
    if run.deleted.contains(predicate) || (has_pending(schema, run.rows, predicate)
        && stored.dom().contains(predicate) && stored[predicate].len() == 0) {
        // Every row at the identity is pending.
        match patch_pending(schema, run.rows, predicate, partial) {
            Err(error) => Err(error),
            Ok(rows) => Ok(RunView { rows, ..run }),
        }
    } else if stored.dom().contains(predicate) && stored[predicate].len() > 0 {
        with_recovered_update(schema, run, predicate, key, partial)
    } else {
        // An ordered statement, which makes what was read stale.
        match partial_assignments(schema, partial) {
            Err(error) => Err(error),
            Ok(_) => Ok(
                RunView {
                    ops: flushed(run).ops.push(RowOp::Patch { predicate, partial }),
                    recovered: nothing_recovered(),
                    ..flushed(run)
                },
            ),
        }
    }
}

/// The run once one event was folded in.
pub open spec fn step(schema: SchemaView, run: RunView, mutation: MutationView) -> Result<
    RunView,
    ErrorView,
> {
    match mutation {
        MutationView::Insert(row) => with_insert(schema, run, row),
        MutationView::Delete(old_row) => match row_predicate(schema, old_row) {
            Err(error) => Err(error),
            Ok(predicate) => Ok(
                with_delete(
                    schema,
                    run,
                    predicate,
                    row_key(schema, old_row)->Ok_0,
                    DeleteOrigin::Delete,
                ),
            ),
        },
        MutationView::Replace(row) => match row_predicate(schema, OldRowView::Full(row)) {
            Err(error) => Err(error),
            Ok(predicate) => with_insert(
                schema,
                with_delete(
                    schema,
                    run,
                    predicate,
                    row_key(schema, OldRowView::Full(row))->Ok_0,
                    DeleteOrigin::Replace,
                ),
                row,
            ),
        },
        MutationView::Update { delete_row, new_row } => match row_predicate(schema, delete_row) {
            Err(error) => Err(error),
            Ok(predicate) => match new_row {
                UpdatedRowView::Full(row) => with_insert(
                    schema,
                    with_delete(
                        schema,
                        run,
                        predicate,
                        row_key(schema, delete_row)->Ok_0,
                        DeleteOrigin::Update,
                    ),
                    row,
                ),
                UpdatedRowView::Partial(partial) => with_partial_update(
                    schema,
                    run,
                    predicate,
                    row_key(schema, delete_row)->Ok_0,
                    partial,
                ),
            },
        },
    }
}

/// The run once events were folded in, in order.
pub open spec fn steps(schema: SchemaView, run: RunView, mutations: Seq<MutationView>) -> Result<
    RunView,
    ErrorView,
>
    decreases mutations.len(),
{
    if mutations.len() == 0 {
        Ok(run)
    } else {
        match steps(schema, run, mutations.drop_last()) {
            Err(error) => Err(error),
            Ok(run) => step(schema, run, mutations.last()),
        }
    }
}

/// The run before any event.
pub open spec fn fresh_run(recovered: RecoveredView) -> RunView {
    RunView {
        ops: Seq::empty(),
        deleted: Seq::empty(),
        keys: Seq::empty(),
        rows: Seq::empty(),
        origin: None,
        recovered,
    }
}

/// The statements a batch of changes normalizes to.
pub open spec fn normalized(
    schema: SchemaView,
    mutations: Seq<MutationView>,
    recovered: RecoveredView,
) -> Result<Seq<RowOp>, ErrorView> {
    match steps(schema, fresh_run(recovered), mutations) {
        Err(error) => Err(error),
        Ok(run) => Ok(flushed(run).ops),
    }
}

/// Contents of pending rows.
pub open spec fn slot_views(rows: Seq<Option<TableRow>>) -> Seq<Option<Seq<CellView>>> {
    rows.map_values(
        |r: Option<TableRow>|
            match r {
                None => None,
                Some(row) => Some(row@),
            },
    )
}

/// The index lists exactly the pending rows, each once and under its own
/// identity, except for those whose indexes are in `moving`.
spec fn indexed(
    schema: SchemaView,
    rows: Seq<Option<Seq<CellView>>>,
    positions: Map<Seq<char>, Vec<usize>>,
    moving: Seq<usize>,
) -> bool {
    &&& forall|p: Seq<char>, k: int|
        positions.dom().contains(p) && 0 <= k < positions[p]@.len() ==> {
            &&& (#[trigger] positions[p]@[k]) < rows.len()
            &&& is_at(schema, rows[positions[p]@[k] as int], p)
            &&& !moving.contains(positions[p]@[k])
        }
    &&& forall|p: Seq<char>|
        positions.dom().contains(p) ==> (#[trigger] positions[p]@).no_duplicates()
    &&& forall|i: usize|
        i < rows.len() && (#[trigger] rows[i as int]) is Some && !moving.contains(i) ==> {
            &&& row_predicate(schema, OldRowView::Full(rows[i as int]->0)) is Ok
            &&& positions.dom().contains(
                row_predicate(schema, OldRowView::Full(rows[i as int]->0))->Ok_0,
            )
            &&& positions[row_predicate(schema, OldRowView::Full(rows[i as int]->0))->Ok_0]@.contains(i)
        }
}

fn clone_indexes(indexes: &Vec<usize>) -> (r: Vec<usize>)
    ensures
        r@ == indexes@,
{
    let mut copy: Vec<usize> = Vec::new();
    for i in 0..indexes.len()
        invariant
            copy@ == indexes@.take(i as int),
    {
        copy.push(indexes[i]);
        assert(copy@ =~= indexes@.take(i + 1));
    }
    assert(indexes@.take(indexes@.len() as int) =~= indexes@);
    copy
}

/// The list of an identity, empty where there is none.
spec fn listed(positions: Map<Seq<char>, Vec<usize>>, predicate: Seq<char>) -> Seq<usize> {
    if positions.dom().contains(predicate) {
        positions[predicate]@
    } else {
        Seq::empty()
    }
}

fn positions_of(positions: &StringHashMap<Vec<usize>>, predicate: &str) -> (r: Vec<usize>)
    ensures
        r@ == listed(positions@, predicate@),
{
    match positions.get(predicate) {
        Some(indexes) => clone_indexes(indexes),
        None => Vec::new(),
    }
}

fn add_position(positions: &mut StringHashMap<Vec<usize>>, predicate: String, index: usize)
    ensures
        final(positions)@.dom() == old(positions)@.dom().insert(predicate@),
        final(positions)@[predicate@]@ == listed(old(positions)@, predicate@).push(index),
        forall|p: Seq<char>|
            p != predicate@ && old(positions)@.dom().contains(p) ==> #[trigger] final(positions)@[p]
                == old(positions)@[p],
{
    let mut indexes = positions_of(positions, predicate.as_str());
    indexes.push(index);
    positions.insert(predicate, indexes);
}

/// The normalizer's working state.
struct RowRun {
    prepared: Vec<PreparedTableMutation>,
    predicates: Vec<String>,
    deleted: StringHashSet,
    key_set: DeleteKeySet,
    rows: Vec<Option<TableRow>>,
    positions: StringHashMap<Vec<usize>>,
    origin: Option<DeleteOrigin>,
    recovered: RecoveredPartialRows,
    ops: Ghost<Seq<RowOp>>,
}

impl RowRun {
    spec fn model(&self) -> RunView {
        RunView {
            ops: self.ops@,
            deleted: texts(self.predicates@),
            keys: self.key_set.pushed(),
            rows: slot_views(self.rows@),
            origin: self.origin,
            recovered: self.recovered@,
        }
    }

    spec fn wf(&self, schema: SchemaView) -> bool {
        &&& prepared_views(self.prepared@) == rendered_all(schema, self.ops@)
        &&& self.deleted@ == texts(self.predicates@).to_set()
        &&& self.key_set.wf()
        &&& self.key_set.columns() == identity_column_names(schema)
        &&& self.key_set.pushed().len() == self.predicates@.len()
        &&& self.recovered.wf()
        &&& identity_columns(schema).len() > 0
        &&& indexed(schema, slot_views(self.rows@), self.positions@, Seq::empty())
    }

    fn new(schema: &ReplicatedTableSchema, recovered: RecoveredPartialRows) -> (r: RowRun)
        requires
            recovered.wf(),
            identity_columns(schema@).len() > 0,
        ensures
            r.wf(schema@),
            r.model() == fresh_run(recovered@),
    {
        let r = RowRun {
            prepared: Vec::new(),
            predicates: Vec::new(),
            deleted: StringHashSet::new(),
            key_set: DeleteKeySet::new(schema),
            rows: Vec::new(),
            positions: StringHashMap::new(),
            origin: None,
            recovered,
            ops: Ghost(Seq::empty()),
        };
        proof {
            assert(prepared_views(r.prepared@) =~= rendered_all(schema@, r.ops@));
            assert(r.deleted@ =~= texts(r.predicates@).to_set());
            assert(r.model().deleted =~= fresh_run(recovered@).deleted);
            assert(r.model().rows =~= fresh_run(recovered@).rows);
        }
        r
    }

    /// Appends a pending row.
    fn push_row(&mut self, schema: &ReplicatedTableSchema, row: TableRow) -> (r: Result<(), EtlError>)
        requires
            old(self).wf(schema@),
        ensures
            match r {
                Ok(_) => final(self).wf(schema@) && with_insert(schema@, old(self).model(), row@)
                    == Ok::<RunView, ErrorView>(final(self).model()),
                Err(error) => with_insert(schema@, old(self).model(), row@) == Err::<
                    RunView,
                    ErrorView,
                >(error@),
            },
    {
        let predicate = match delete_predicate_from_row(schema, DeletePredicateRowRef::Full(&row)) {
            Ok(predicate) => predicate,
            Err(error) => return Err(error),
        };
        let ghost before = slot_views(self.rows@);
        let ghost old_positions = self.positions@;
        let index: usize = self.rows.len();
        add_position(&mut self.positions, predicate, index);
        self.rows.push(Some(row));
        proof {
            let after = slot_views(self.rows@);
            assert(after =~= before.push(Some(row@)));
            let positions = self.positions@;
            let list = listed(old_positions, predicate@);
            assert forall|p: Seq<char>, k: int|
                positions.dom().contains(p) && 0 <= k < positions[p]@.len() implies {
                &&& (#[trigger] positions[p]@[k]) < after.len()
                &&& is_at(schema@, after[positions[p]@[k] as int], p)
                &&& !Seq::<usize>::empty().contains(positions[p]@[k])
            } by {
                if p == predicate@ {
                    if k < list.len() {
                        assert(positions[p]@[k] == list[k]);
                        assert(old_positions[p]@[k] == list[k]);
                    }
                } else {
                    assert(old_positions.dom().contains(p));
                    assert(positions[p] == old_positions[p]);
                    assert(old_positions[p]@[k] == positions[p]@[k]);
                }
            }
            assert forall|p: Seq<char>| positions.dom().contains(p) implies (
            #[trigger] positions[p]@).no_duplicates() by {
                if p == predicate@ {
                    assert(positions[p]@ =~= list.push(index));
                    if old_positions.dom().contains(p) {
                        assert(old_positions[p]@.no_duplicates());
                    }
                    assert forall|k: int| 0 <= k < list.len() implies list[k] != index by {
                        assert(old_positions[p]@[k] < before.len());
                    }
                } else {
                    assert(old_positions.dom().contains(p));
                    assert(positions[p] == old_positions[p]);
                    assert(old_positions[p]@.no_duplicates());
                }
            }
            assert forall|i: usize|
                i < after.len() && (#[trigger] after[i as int]) is Some implies {
                &&& row_predicate(schema@, OldRowView::Full(after[i as int]->0)) is Ok
                &&& positions.dom().contains(
                    row_predicate(schema@, OldRowView::Full(after[i as int]->0))->Ok_0,
                )
                &&& positions[row_predicate(schema@, OldRowView::Full(after[i as int]->0))->Ok_0]@.contains(
                    i,
                )
            } by {
                if i == index {
                    assert(positions[predicate@]@.last() == i);
                    assert(positions[predicate@]@[list.len() as int] == i);
                } else {
                    assert(before[i as int] == after[i as int]);
                    let p = row_predicate(schema@, OldRowView::Full(before[i as int]->0))->Ok_0;
                    assert(old_positions[p]@.contains(i));
                    let k = choose|k: int|
                        0 <= k < old_positions[p]@.len() && old_positions[p]@[k] == i;
                    if p == predicate@ {
                        assert(positions[p]@[k] == i);
                    } else {
                        assert(positions[p]@[k] == i);
                    }
                }
            }
        }
        Ok(())
    }

    /// Drops the pending rows at one identity.
    fn remove_identity(&mut self, schema: Ghost<SchemaView>, predicate: &str)
        requires
            old(self).wf(schema@),
        ensures
            final(self).wf(schema@),
            final(self).model() == (RunView {
                rows: rows_without(schema@, old(self).model().rows, predicate@),
                ..old(self).model()
            }),
    {
        let ghost before = slot_views(self.rows@);
        let ghost old_positions = self.positions@;
        let count: usize = self.rows.len();
        let indexes = positions_of(&self.positions, predicate);
        self.positions.remove(predicate);
        let ghost list = indexes@;
        proof {
            assert forall|k: int| 0 <= k < list.len() implies #[trigger] list[k] < before.len()
                && is_at(schema@, before[list[k] as int], predicate@) by {
                assert(old_positions[predicate@]@[k] == list[k]);
            }
            assert forall|i: usize|
                i < before.len() && is_at(schema@, #[trigger] before[i as int], predicate@) implies list.contains(i) by {
                assert(before[i as int] is Some);
                assert(old_positions[predicate@]@.contains(i));
            }
        }
        for k in 0..indexes.len()
            invariant
                list == indexes@,
                count == before.len(),
                self.rows@.len() == before.len(),
                forall|j: int| 0 <= j < list.len() ==> #[trigger] list[j] < before.len(),
                forall|i: int|
                    0 <= i < before.len() ==> (#[trigger] slot_views(self.rows@)[i]) == (
                    if list.take(k as int).contains(i as usize) {
                        None
                    } else {
                        before[i]
                    }),
                self.positions@ == old_positions.remove(predicate@),
                self.prepared == old(self).prepared,
                self.predicates == old(self).predicates,
                self.deleted == old(self).deleted,
                self.key_set == old(self).key_set,
                self.origin == old(self).origin,
                self.recovered == old(self).recovered,
                self.ops == old(self).ops,
        {
            let ghost held = slot_views(self.rows@);
            let index: usize = indexes[k];
            self.rows[index] = None;
            proof {
                let shorter = list.take(k as int);
                let longer = list.take(k + 1);
                assert(longer =~= shorter.push(index));
                assert forall|i: int| 0 <= i < before.len() implies (#[trigger] slot_views(
                    self.rows@,
                )[i]) == (if longer.contains(i as usize) {
                    None
                } else {
                    before[i]
                }) by {
                    assert(held[i] == (if shorter.contains(i as usize) {
                        None
                    } else {
                        before[i]
                    }));
                    if i == index {
                        assert(longer[k as int] == i as usize);
                    } else {
                        assert(slot_views(self.rows@)[i] == held[i]);
                        if longer.contains(i as usize) {
                            let j = choose|j: int|
                                0 <= j < longer.len() && longer[j] == i as usize;
                            assert(shorter[j] == i as usize);
                        }
                        if shorter.contains(i as usize) {
                            let j = choose|j: int|
                                0 <= j < shorter.len() && shorter[j] == i as usize;
                            assert(longer[j] == i as usize);
                        }
                    }
                }
            }
        }
        proof {
            let after = slot_views(self.rows@);
            assert(list.take(list.len() as int) =~= list);
            let target = rows_without(schema@, before, predicate@);
            assert forall|i: int| 0 <= i < before.len() implies after[i] == target[i] by {
                if list.contains(i as usize) {
                    let k = choose|k: int| 0 <= k < list.len() && list[k] == i as usize;
                    assert(is_at(schema@, before[list[k] as int], predicate@));
                } else {
                    assert(!is_at(schema@, before[i as usize as int], predicate@));
                }
            }
            assert(after =~= target);
            let positions = self.positions@;
            assert forall|p: Seq<char>, k: int|
                positions.dom().contains(p) && 0 <= k < positions[p]@.len() implies {
                &&& (#[trigger] positions[p]@[k]) < after.len()
                &&& is_at(schema@, after[positions[p]@[k] as int], p)
                &&& !Seq::<usize>::empty().contains(positions[p]@[k])
            } by {
                assert(old_positions[p]@[k] == positions[p]@[k]);
                assert(is_at(schema@, before[positions[p]@[k] as int], p));
            }
            assert forall|p: Seq<char>| positions.dom().contains(p) implies (
            #[trigger] positions[p]@).no_duplicates() by {
                assert(old_positions[p]@.no_duplicates());
            }
            assert forall|i: usize|
                i < after.len() && (#[trigger] after[i as int]) is Some implies {
                &&& row_predicate(schema@, OldRowView::Full(after[i as int]->0)) is Ok
                &&& positions.dom().contains(
                    row_predicate(schema@, OldRowView::Full(after[i as int]->0))->Ok_0,
                )
                &&& positions[row_predicate(schema@, OldRowView::Full(after[i as int]->0))->Ok_0]@.contains(
                    i,
                )
            } by {
                assert(before[i as int] == after[i as int]);
                assert(before[i as int] is Some);
                let p = row_predicate(schema@, OldRowView::Full(before[i as int]->0))->Ok_0;
                assert(old_positions[p]@.contains(i));
                assert(p != predicate@);
            }
        }
    }

    /// Deletes one identity: from storage once, and from the pending rows.
    fn record_delete(
        &mut self,
        schema: Ghost<SchemaView>,
        predicate: String,
        key: &Vec<KeyComponent>,
        origin: DeleteOrigin,
    )
        requires
            old(self).wf(schema@),
        ensures
            final(self).wf(schema@),
            final(self).model() == with_delete(
                schema@,
                old(self).model(),
                predicate@,
                component_views(key@),
                origin,
            ),
    {
        self.remove_identity(schema, predicate.as_str());
        self.origin = Some(merge_origin(self.origin, origin));
        if !self.deleted.contains(predicate.as_str()) {
            self.record_identity(schema, predicate, key);
        }
    }

    /// Adds an identity that is not deleted yet to the delete statement.
    fn record_identity(&mut self, schema: Ghost<SchemaView>, predicate: String, key: &Vec<KeyComponent>)
        requires
            old(self).wf(schema@),
        ensures
            final(self).wf(schema@),
            final(self).model() == (RunView {
                deleted: old(self).model().deleted.push(predicate@),
                keys: old(self).model().keys.push(component_views(key@)),
                ..old(self).model()
            }),
    {
        let ghost held = texts(self.predicates@);
        self.deleted.insert(predicate.clone());
        self.key_set.push(key);
        self.predicates.push(predicate);
        proof {
            let grown = texts(self.predicates@);
            assert(grown =~= held.push(predicate@));
            assert forall|x: Seq<char>| grown.to_set().contains(x) <==> held.to_set().insert(
                predicate@,
            ).contains(x) by {
                if grown.contains(x) {
                    let k = choose|k: int| 0 <= k < grown.len() && grown[k] == x;
                    if k < held.len() {
                        assert(held[k] == x);
                    }
                }
                if held.contains(x) {
                    let k = choose|k: int| 0 <= k < held.len() && held[k] == x;
                    assert(grown[k] == x);
                }
                assert(grown[held.len() as int] == predicate@);
            }
            assert(grown.to_set() =~= held.to_set().insert(predicate@));
        }
    }

    /// Turns the pending deletes and rows into statements, deletes first.
    fn flush_full_row_writes(&mut self, schema: Ghost<SchemaView>)
        requires
            old(self).wf(schema@),
        ensures
            final(self).wf(schema@),
            final(self).model() == flushed(old(self).model()),
    {
        let ghost model = self.model();
        if self.predicates.len() > 0 {
            let ghost held = self.prepared@;
            let key_set = self.key_set.take_clause();
            let mut predicates: Vec<String> = Vec::new();
            core::mem::swap(&mut predicates, &mut self.predicates);
            let origin = match self.origin {
                None => DeleteOrigin::Mixed,
                Some(origin) => origin,
            };
            self.origin = None;
            self.deleted.clear();
            self.prepared.push(PreparedTableMutation::Delete { predicates, key_set, origin });
            proof {
                let op = RowOp::Delete { predicates: model.deleted, keys: Some(model.keys), origin };
                self.ops@ = model.ops.push(op);
                assert(prepared_views(self.prepared@) =~= prepared_views(held).push(
                    self.prepared@.last()@,
                ));
                assert(rendered_all(schema@, self.ops@) =~= rendered_all(schema@, model.ops).push(
                    rendered(schema@, op),
                ));
                assert(texts(self.predicates@).to_set() =~= Set::<Seq<char>>::empty());
            }
        } else {
            proof {
                assert(model.keys =~= Seq::empty());
            }
        }
        let ghost middle = self.model();
        if self.rows.len() > 0 {
            let ghost held = self.prepared@;
            let mut rows: Vec<Option<TableRow>> = Vec::new();
            core::mem::swap(&mut rows, &mut self.rows);
            self.positions.clear();
            let rows = take_survivors(rows);
            self.prepared.push(PreparedTableMutation::Upsert(prepare_rows(rows)));
            proof {
                let op = RowOp::Insert { rows: survivors(model.rows) };
                self.ops@ = middle.ops.push(op);
                assert(prepared_views(self.prepared@) =~= prepared_views(held).push(
                    self.prepared@.last()@,
                ));
                assert(rendered_all(schema@, self.ops@) =~= rendered_all(schema@, middle.ops).push(
                    rendered(schema@, op),
                ));
            }
        }
        proof {
            let target = flushed(model);
            assert(self.ops@ =~= target.ops);
            assert(self.model().deleted =~= target.deleted);
            assert(self.model().keys =~= target.keys);
            assert(self.model().rows =~= target.rows);
        }
    }

    /// Writes the present values of a partial row over the pending rows at one
    /// identity. A patched row keeps its place, so a later delete of its
    /// identity still removes it.
    fn patch_pending_rows(
        &mut self,
        schema: &ReplicatedTableSchema,
        predicate: &str,
        partial: &PartialTableRow,
    ) -> (r: Result<(), EtlError>)
        requires
            old(self).wf(schema@),
        ensures
            match r {
                Ok(_) => final(self).wf(schema@) && patch_pending(
                    schema@,
                    old(self).model().rows,
                    predicate@,
                    partial@,
                ) == Ok::<Seq<Option<Seq<CellView>>>, ErrorView>(final(self).model().rows)
                    && final(self).model() == (RunView {
                    rows: final(self).model().rows,
                    ..old(self).model()
                }),
                Err(error) => patch_pending(
                    schema@,
                    old(self).model().rows,
                    predicate@,
                    partial@,
                ) == Err::<Seq<Option<Seq<CellView>>>, ErrorView>(error@),
            },
    {
        let ghost before = slot_views(self.rows@);
        let ghost old_positions = self.positions@;
        let ghost width = schema@.columns.len();
        let ghost target = rows_patched(schema@, before, predicate@, partial@);
        let count: usize = self.rows.len();
        let indexes = positions_of(&self.positions, predicate);
        self.positions.remove(predicate);
        let ghost list = indexes@;
        proof {
            assert forall|k: int| 0 <= k < list.len() implies #[trigger] list[k] < before.len()
                && is_at(schema@, before[list[k] as int], predicate@) by {
                assert(old_positions[predicate@]@[k] == list[k]);
            }
            if old_positions.dom().contains(predicate@) {
                assert(old_positions[predicate@]@.no_duplicates());
            }
            assert forall|i: usize|
                i < before.len() && is_at(schema@, #[trigger] before[i as int], predicate@) implies list.contains(i) by {
                assert(before[i as int] is Some);
                assert(old_positions[predicate@]@.contains(i));
            }
            assert(list.skip(0) =~= list);
            let positions = self.positions@;
            assert forall|p: Seq<char>, k: int|
                positions.dom().contains(p) && 0 <= k < positions[p]@.len() implies {
                &&& (#[trigger] positions[p]@[k]) < before.len()
                &&& is_at(schema@, before[positions[p]@[k] as int], p)
                &&& !list.contains(positions[p]@[k])
            } by {
                assert(old_positions[p]@[k] == positions[p]@[k]);
                if list.contains(positions[p]@[k]) {
                    let j = choose|j: int| 0 <= j < list.len() && list[j] == positions[p]@[k];
                    assert(is_at(schema@, before[list[j] as int], predicate@));
                }
            }
            assert forall|p: Seq<char>| positions.dom().contains(p) implies (
            #[trigger] positions[p]@).no_duplicates() by {
                assert(old_positions[p]@.no_duplicates());
            }
            assert(indexed(schema@, before, positions, list));
        }
        for k in 0..indexes.len()
            invariant
                list == indexes@,
                count == before.len(),
                list.no_duplicates(),
                width == schema@.columns.len(),
                identity_columns(schema@).len() > 0,
                before == old(self).model().rows,
                self.rows@.len() == before.len(),
                target == rows_patched(schema@, before, predicate@, partial@),
                forall|j: int|
                    0 <= j < list.len() ==> #[trigger] list[j] < before.len() && is_at(
                        schema@,
                        before[list[j] as int],
                        predicate@,
                    ),
                forall|i: int|
                    0 <= i < before.len() ==> (#[trigger] slot_views(self.rows@)[i]) == (
                    if list.take(k as int).contains(i as usize) {
                        target[i]
                    } else {
                        before[i]
                    }),
                k > 0 ==> patchable(partial@, width),
                indexed(schema@, slot_views(self.rows@), self.positions@, list.skip(k as int)),
                self.prepared == old(self).prepared,
                self.predicates == old(self).predicates,
                self.deleted == old(self).deleted,
                self.key_set == old(self).key_set,
                self.origin == old(self).origin,
                self.recovered == old(self).recovered,
                self.ops == old(self).ops,
        {
            let ghost held = slot_views(self.rows@);
            let ghost held_positions = self.positions@;
            let index: usize = indexes[k];
            proof {
                assert(is_at(schema@, before[list[k as int] as int], predicate@));
                assert(!list.take(k as int).contains(index)) by {
                    if list.take(k as int).contains(index) {
                        let j = choose|j: int| 0 <= j < k && list.take(k as int)[j] == index;
                        assert(list[j] == list[k as int]);
                    }
                }
                assert(held[index as int] == before[index as int]);
                assert(held[index as int] is Some);
                assert(before[index as int]->0.len() == width);
            }
            let mut slot: Option<TableRow> = None;
            core::mem::swap(&mut slot, &mut self.rows[index]);
            let previous = slot.unwrap();
            let updated = match patch_row(schema, partial, previous) {
                Ok(updated) => updated,
                Err(error) => {
                    assert(has_pending(schema@, before, predicate@)) by {
                        assert(is_at(schema@, before[index as int], predicate@));
                    }
                    return Err(error);
                },
            };
            let moved = match delete_predicate_from_row(
                schema,
                DeletePredicateRowRef::Full(&updated),
            ) {
                Ok(moved) => moved,
                Err(error) => {
                    assert(false);
                    return Err(error);
                },
            };
            add_position(&mut self.positions, moved, index);
            self.rows[index] = Some(updated);
            proof {
                let after = slot_views(self.rows@);
                let shorter = list.take(k as int);
                let longer = list.take(k + 1);
                assert(longer =~= shorter.push(index));
                assert(after =~= held.update(index as int, Some(updated@)));
                assert(target[index as int] == Some(updated@));
                assert forall|i: int| 0 <= i < before.len() implies (#[trigger] slot_views(
                    self.rows@,
                )[i]) == (if longer.contains(i as usize) {
                    target[i]
                } else {
                    before[i]
                }) by {
                    assert(held[i] == (if shorter.contains(i as usize) {
                        target[i]
                    } else {
                        before[i]
                    }));
                    if i == index {
                        assert(longer[k as int] == i as usize);
                    } else {
                        assert(after[i] == held[i]);
                        if longer.contains(i as usize) {
                            let j = choose|j: int|
                                0 <= j < longer.len() && longer[j] == i as usize;
                            assert(shorter[j] == i as usize);
                        }
                        if shorter.contains(i as usize) {
                            let j = choose|j: int|
                                0 <= j < shorter.len() && shorter[j] == i as usize;
                            assert(longer[j] == i as usize);
                        }
                    }
                }
                lemma_index_moved(
                    schema@,
                    held,
                    after,
                    held_positions,
                    self.positions@,
                    list,
                    k as int,
                    moved@,
                );
            }
        }
        proof {
            let after = slot_views(self.rows@);
            assert(list.take(list.len() as int) =~= list);
            assert(list.skip(list.len() as int) =~= Seq::empty());
            assert forall|i: int| 0 <= i < before.len() implies after[i] == target[i] by {
                if !list.contains(i as usize) {
                    assert(!is_at(schema@, before[i as usize as int], predicate@));
                }
            }
            assert(after =~= target);
            if has_pending(schema@, before, predicate@) {
                let i = choose|i: int|
                    0 <= i < before.len() && is_at(schema@, #[trigger] before[i], predicate@);
                assert(is_at(schema@, before[i as usize as int], predicate@));
                assert(list.contains(i as usize));
            }
        }
        Ok(())
    }
}

impl RowRun {
    /// Folds in a partial update whose identity has stored rows.
    fn apply_recovered_update(
        &mut self,
        schema: &ReplicatedTableSchema,
        predicate: String,
        key: &Vec<KeyComponent>,
        partial: &PartialTableRow,
    ) -> (r: Result<(), EtlError>)
        requires
            old(self).wf(schema@),
            old(self).recovered@.rows.dom().contains(predicate@),
        ensures
            match r {
                Ok(_) => final(self).wf(schema@) && with_recovered_update(
                    schema@,
                    old(self).model(),
                    predicate@,
                    component_views(key@),
                    partial@,
                ) == Ok::<RunView, ErrorView>(final(self).model()),
                Err(error) => with_recovered_update(
                    schema@,
                    old(self).model(),
                    predicate@,
                    component_views(key@),
                    partial@,
                ) == Err::<RunView, ErrorView>(error@),
            },
    {
        let ghost model = self.model();
        let ghost stored = model.recovered.rows[predicate@];
        let ghost columns = index_views(model.recovered.columns);
        let ghost complete = |k: int| completed(schema@, partial@, columns, stored[k]);
        let mut rows: Vec<TableRow> = Vec::new();
        assert(row_views(rows@) =~= Seq::<Seq<CellView>>::empty());
        if let Some(stored_rows) = self.recovered.rows_for(predicate.as_str()) {
            for k in 0..stored_rows.len()
                invariant
                    *self == *old(self),
                    self.recovered.wf(),
                    model == old(self).model(),
                    stored == model.recovered.rows[predicate@],
                    stored == row_views(stored_rows@),
                    columns == index_views(model.recovered.columns),
                    complete == (|k: int| completed(schema@, partial@, columns, stored[k])),
                    collect(k as nat, complete) == Ok::<Seq<Seq<CellView>>, ErrorView>(
                        row_views(rows@),
                    ),
            {
                let ghost held = row_views(rows@);
                assert(stored[k as int] == stored_rows@[k as int]@);
                match complete_partial_row(
                    schema,
                    partial,
                    self.recovered.columns(),
                    stored_rows[k].values(),
                ) {
                    Ok(row) => {
                        rows.push(row);
                        assert(row_views(rows@) =~= held.push(row@));
                        assert(complete(k as int) == Ok::<Seq<CellView>, ErrorView>(row@));
                    },
                    Err(error) => {
                        proof {
                            assert(complete(k as int) == Err::<Seq<CellView>, ErrorView>(error@));
                            lemma_collect_fails((k + 1) as nat, stored.len(), complete);
                        }
                        return Err(error);
                    },
                }
            }
        }
        assert(completed_rows(schema@, partial@, model.recovered, predicate@) == Ok::<
            Seq<Seq<CellView>>,
            ErrorView,
        >(row_views(rows@)));
        match self.patch_pending_rows(schema, predicate.as_str(), partial) {
            Ok(_) => {},
            Err(error) => return Err(error),
        }
        let ghost all = row_views(rows@);
        self.record_identity(Ghost(schema@), predicate, key);
        self.origin = Some(merge_origin(self.origin, DeleteOrigin::Update));
        let ghost base = self.model();
        assert(base == (RunView {
            rows: patch_pending(schema@, model.rows, predicate@, partial@)->Ok_0,
            deleted: model.deleted.push(predicate@),
            keys: model.keys.push(component_views(key@)),
            origin: Some(merged_origin(model.origin, DeleteOrigin::Update)),
            ..model
        }));
        for row in iter: rows
            invariant
                iter.seq() == rows@,
                all == row_views(rows@),
                self.wf(schema@),
                with_recovered_update(
                    schema@,
                    model,
                    predicate@,
                    component_views(key@),
                    partial@,
                ) == with_inserts(schema@, base, all, all.len()),
                model == old(self).model(),
                with_inserts(schema@, base, all, iter.index() as nat) == Ok::<RunView, ErrorView>(
                    self.model(),
                ),
        {
            assert(all[iter.index()] == row@);
            match self.push_row(schema, row) {
                Ok(_) => {},
                Err(error) => {
                    proof {
                        lemma_inserts_fail(
                            schema@,
                            base,
                            all,
                            (iter.index() + 1) as nat,
                            all.len(),
                        );
                    }
                    return Err(error);
                },
            }
        }
        Ok(())
    }

    /// Folds in a partial update.
    fn apply_partial_update(
        &mut self,
        schema: &ReplicatedTableSchema,
        predicate: String,
        key: &Vec<KeyComponent>,
        partial: &PartialTableRow,
    ) -> (r: Result<(), EtlError>)
        requires
            old(self).wf(schema@),
        ensures
            match r {
                Ok(_) => final(self).wf(schema@) && with_partial_update(
                    schema@,
                    old(self).model(),
                    predicate@,
                    component_views(key@),
                    partial@,
                ) == Ok::<RunView, ErrorView>(final(self).model()),
                Err(error) => with_partial_update(
                    schema@,
                    old(self).model(),
                    predicate@,
                    component_views(key@),
                    partial@,
                ) == Err::<RunView, ErrorView>(error@),
            },
    {
        let ghost model = self.model();
        let deleted = self.deleted.contains(predicate.as_str());
        assert(deleted == model.deleted.contains(predicate@));
        let pending = positions_of(&self.positions, predicate.as_str()).len() > 0;
        proof {
            let rows = model.rows;
            if pending {
                let i = self.positions@[predicate@]@[0];
                assert(is_at(schema@, rows[i as int], predicate@));
            }
            if has_pending(schema@, rows, predicate@) {
                let i = choose|i: int|
                    0 <= i < rows.len() && is_at(schema@, #[trigger] rows[i], predicate@);
                let n = self.rows.len();
                assert(rows[i as usize as int] is Some);
                assert(self.positions@[predicate@]@.contains(i as usize));
            }
            assert(pending == has_pending(schema@, rows, predicate@));
        }
        let stored: Option<usize> = match self.recovered.rows_for(predicate.as_str()) {
            Some(rows) => {
                assert(row_views(rows@).len() == rows@.len());
                Some(rows.len())
            },
            None => None,
        };
        let absent = match stored {
            Some(count) => count == 0,
            None => false,
        };
        if deleted || (pending && absent) {
            return self.patch_pending_rows(schema, predicate.as_str(), partial);
        }
        if stored.is_some() && !absent {
            return self.apply_recovered_update(schema, predicate, key, partial);
        }
        let assignments = match update_assignments_from_partial_row(schema, partial) {
            Ok(assignments) => assignments,
            Err(error) => return Err(error),
        };
        self.flush_full_row_writes(Ghost(schema@));
        self.recovered.clear();
        let ghost held = self.prepared@;
        let ghost ops = self.ops@;
        self.prepared.push(PreparedTableMutation::Update { assignments, predicate });
        proof {
            let op = RowOp::Patch { predicate: predicate@, partial: partial@ };
            self.ops@ = ops.push(op);
            assert(prepared_views(self.prepared@) =~= prepared_views(held).push(
                self.prepared@.last()@,
            ));
            assert(rendered_all(schema@, self.ops@) =~= rendered_all(schema@, ops).push(
                rendered(schema@, op),
            ));
        }
        Ok(())
    }

    /// Folds in one event.
    fn apply(&mut self, schema: &ReplicatedTableSchema, mutation: TableMutation) -> (r: Result<
        (),
        EtlError,
    >)
        requires
            old(self).wf(schema@),
        ensures
            match r {
                Ok(_) => final(self).wf(schema@) && step(schema@, old(self).model(), mutation@)
                    == Ok::<RunView, ErrorView>(final(self).model()),
                Err(error) => step(schema@, old(self).model(), mutation@) == Err::<
                    RunView,
                    ErrorView,
                >(error@),
            },
    {
        match mutation {
            TableMutation::Insert(row) => self.push_row(schema, row),
            TableMutation::Delete(old_row) => {
                let image = DeletePredicateRowRef::from_old(&old_row);
                let predicate = match delete_predicate_from_row(schema, image) {
                    Ok(predicate) => predicate,
                    Err(error) => return Err(error),
                };
                let key = match delete_key_components(schema, image) {
                    Ok(key) => key,
                    Err(error) => return Err(error),
                };
                self.record_delete(Ghost(schema@), predicate, &key, DeleteOrigin::Delete);
                Ok(())
            },
            TableMutation::Replace(row) => {
                let image = DeletePredicateRowRef::Full(&row);
                let predicate = match delete_predicate_from_row(schema, image) {
                    Ok(predicate) => predicate,
                    Err(error) => return Err(error),
                };
                let key = match delete_key_components(schema, image) {
                    Ok(key) => key,
                    Err(error) => return Err(error),
                };
                self.record_delete(Ghost(schema@), predicate, &key, DeleteOrigin::Replace);
                self.push_row(schema, row)
            },
            TableMutation::Update { delete_row, new_row } => {
                let image = DeletePredicateRowRef::from_old(&delete_row);
                let predicate = match delete_predicate_from_row(schema, image) {
                    Ok(predicate) => predicate,
                    Err(error) => return Err(error),
                };
                let key = match delete_key_components(schema, image) {
                    Ok(key) => key,
                    Err(error) => return Err(error),
                };
                match new_row {
                    UpdatedTableRow::Full(row) => {
                        self.record_delete(Ghost(schema@), predicate, &key, DeleteOrigin::Update);
                        self.push_row(schema, row)
                    },
                    UpdatedTableRow::Partial(partial) => self.apply_partial_update(
                        schema,
                        predicate,
                        &key,
                        &partial,
                    ),
                }
            },
        }
    }
}

/// A failing insert fails every longer run of inserts with the same error.
proof fn lemma_inserts_fail(
    schema: SchemaView,
    run: RunView,
    rows: Seq<Seq<CellView>>,
    shorter: nat,
    count: nat,
)
    requires
        shorter <= count,
        with_inserts(schema, run, rows, shorter) is Err,
    ensures
        with_inserts(schema, run, rows, count) == with_inserts(schema, run, rows, shorter),
    decreases count,
{
    if shorter < count {
        lemma_inserts_fail(schema, run, rows, shorter, (count - 1) as nat);
    }
}

/// A failing event fails every longer run of events with the same error.
proof fn lemma_steps_fail(
    schema: SchemaView,
    run: RunView,
    mutations: Seq<MutationView>,
    shorter: int,
)
    requires
        0 <= shorter <= mutations.len(),
        steps(schema, run, mutations.take(shorter)) is Err,
    ensures
        steps(schema, run, mutations) == steps(schema, run, mutations.take(shorter)),
    decreases mutations.len(),
{
    if shorter == mutations.len() {
        assert(mutations.take(shorter) =~= mutations);
    } else {
        let rest = mutations.drop_last();
        assert(rest.take(shorter) =~= mutations.take(shorter));
        lemma_steps_fail(schema, run, rest, shorter);
    }
}

/// Normalizes the changes of one atomic batch on a table with a canonical
/// identity.
fn normalize_table_mutations(
    schema: &ReplicatedTableSchema,
    mutations: Vec<TableMutation>,
    recovered: RecoveredPartialRows,
) -> (r: Result<Vec<PreparedTableMutation>, EtlError>)
    requires
        recovered.wf(),
        identity_columns(schema@).len() > 0,
    ensures
        match r {
            Ok(prepared) => normalized(schema@, mutation_views(mutations@), recovered@) is Ok
                && prepared_views(prepared@) == rendered_all(
                schema@,
                normalized(schema@, mutation_views(mutations@), recovered@)->Ok_0,
            ),
            Err(error) => normalized(schema@, mutation_views(mutations@), recovered@) == Err::<
                Seq<RowOp>,
                ErrorView,
            >(error@),
        },
{
    let ghost events = mutation_views(mutations@);
    let ghost start = fresh_run(recovered@);
    let mut run = RowRun::new(schema, recovered);
    assert(events.take(0) =~= Seq::<MutationView>::empty());
    for mutation in iter: mutations
        invariant
            iter.seq() == mutations@,
            events == mutation_views(mutations@),
            start == fresh_run(recovered@),
            run.wf(schema@),
            steps(schema@, start, events.take(iter.index())) == Ok::<RunView, ErrorView>(
                run.model(),
            ),
    {
        let ghost longer = events.take(iter.index() + 1);
        assert(longer.drop_last() =~= events.take(iter.index()));
        assert(longer.last() == mutation@);
        match run.apply(schema, mutation) {
            Ok(_) => {},
            Err(error) => {
                proof {
                    lemma_steps_fail(schema@, start, events, iter.index() + 1);
                }
                return Err(error);
            },
        }
    }
    assert(events.take(events.len() as int) =~= events);
    run.flush_full_row_writes(Ghost(schema@));
    Ok(run.prepared)
}

/// The statements a batch of changes is prepared to.
pub open spec fn prepared_ops(
    schema: SchemaView,
    mutations: Seq<MutationView>,
    recovered: RecoveredView,
) -> Result<Seq<RowOp>, ErrorView> {
    if canonical_identity(schema) {
        normalized(schema, mutations, recovered)
    } else {
        ordered(schema, mutations)
    }
}

/// Prepares the changes of one atomic batch.
///
/// Applying the pending deletes to the stored table and then appending the
/// pending rows equals executing the consumed events in order. Deleting an
/// identity removes both stored rows and earlier pending rows; inserting only
/// appends. A full update deletes its old identity and appends the new row. A
/// partial update whose identity is already deleted patches the pending rows.
/// Otherwise it is completed from the rows read back for its identity. Without
/// such a row it becomes an ordered statement, which flushes the run and makes
/// everything read back stale.
pub fn prepare_table_mutations(
    schema: &ReplicatedTableSchema,
    mutations: Vec<TableMutation>,
    recovered: RecoveredPartialRows,
) -> (r: Result<Vec<PreparedTableMutation>, EtlError>)
    requires
        recovered.wf(),
    ensures
        match r {
            Ok(prepared) => prepared_ops(schema@, mutation_views(mutations@), recovered@) is Ok
                && prepared_views(prepared@) == rendered_all(
                schema@,
                prepared_ops(schema@, mutation_views(mutations@), recovered@)->Ok_0,
            ),
            Err(error) => prepared_ops(schema@, mutation_views(mutations@), recovered@) == Err::<
                Seq<RowOp>,
                ErrorView,
            >(error@),
        },
{
    if has_canonical_identity(schema) {
        normalize_table_mutations(schema, mutations, recovered)
    } else {
        prepare_ordered_table_mutations(schema, mutations)
    }
}

fn merge_origin(origin: Option<DeleteOrigin>, new: DeleteOrigin) -> (r: DeleteOrigin)
    ensures
        r == merged_origin(origin, new),
{
    match origin {
        None => new,
        Some(previous) => if previous == new {
            previous
        } else {
            DeleteOrigin::Mixed
        },
    }
}

/// Collects the pending rows that survived.
fn take_survivors(rows: Vec<Option<TableRow>>) -> (r: Vec<TableRow>)
    ensures
        row_views(r@) == survivors(slot_views(rows@)),
{
    let ghost slots = slot_views(rows@);
    let mut kept: Vec<TableRow> = Vec::new();
    assert(row_views(kept@) =~= survivors(slots.take(0)));
    for slot in iter: rows
        invariant
            iter.seq() == rows@,
            slots == slot_views(rows@),
            row_views(kept@) == survivors(slots.take(iter.index())),
    {
        let ghost longer = slots.take(iter.index() + 1);
        let ghost held = kept@;
        assert(longer.drop_last() =~= slots.take(iter.index()));
        assert(longer.last() == slots[iter.index()]);
        assert(slot == rows@[iter.index()]);
        if let Some(row) = slot {
            kept.push(row);
            assert(row_views(kept@) =~= row_views(held).push(row@));
        }
    }
    assert(slots.take(slots.len() as int) =~= slots);
    kept
}

/// Moving one row to the list of its new identity keeps the index.
proof fn lemma_index_moved(
    schema: SchemaView,
    held: Seq<Option<Seq<CellView>>>,
    after: Seq<Option<Seq<CellView>>>,
    held_positions: Map<Seq<char>, Vec<usize>>,
    positions: Map<Seq<char>, Vec<usize>>,
    list: Seq<usize>,
    k: int,
    moved: Seq<char>,
)
    requires
        0 <= k < list.len(),
        list.no_duplicates(),
        list[k] < held.len(),
        indexed(schema, held, held_positions, list.skip(k)),
        after == held.update(list[k] as int, after[list[k] as int]),
        is_at(schema, after[list[k] as int], moved),
        positions.dom() == held_positions.dom().insert(moved),
        positions[moved]@ == listed(held_positions, moved).push(list[k]),
        forall|p: Seq<char>|
            p != moved && held_positions.dom().contains(p) ==> #[trigger] positions[p]
                == held_positions[p],
    ensures
        indexed(schema, after, positions, list.skip(k + 1)),
{
    let index = list[k];
    let moving = list.skip(k);
    let rest = list.skip(k + 1);
    let entries = listed(held_positions, moved);
    assert(moving[0] == index);
    assert(moving.contains(index));
    assert forall|x: usize| rest.contains(x) implies moving.contains(x) && x != index by {
        let j = choose|j: int| 0 <= j < rest.len() && rest[j] == x;
        assert(moving[j + 1] == x);
        assert(list[k + 1 + j] == x);
    }
    assert forall|x: usize| moving.contains(x) && x != index implies rest.contains(x) by {
        let j = choose|j: int| 0 <= j < moving.len() && moving[j] == x;
        assert(rest[j - 1] == x);
    }
    assert forall|j: int| 0 <= j < entries.len() implies entries[j] != index by {
        assert(held_positions[moved]@[j] == entries[j]);
        assert(!moving.contains(held_positions[moved]@[j]));
    }
    assert forall|p: Seq<char>, j: int|
        positions.dom().contains(p) && 0 <= j < positions[p]@.len() implies {
        &&& (#[trigger] positions[p]@[j]) < after.len()
        &&& is_at(schema, after[positions[p]@[j] as int], p)
        &&& !rest.contains(positions[p]@[j])
    } by {
        if p == moved && j == entries.len() {
            assert(positions[p]@[j] == index);
        } else {
            assert(held_positions.dom().contains(p));
            assert(held_positions[p]@[j] == positions[p]@[j]) by {
                if p == moved {
                    assert(entries[j] == positions[p]@[j]);
                }
            }
            assert(!moving.contains(held_positions[p]@[j]));
            assert(positions[p]@[j] != index);
            assert(after[positions[p]@[j] as int] == held[positions[p]@[j] as int]);
        }
    }
    assert forall|p: Seq<char>| positions.dom().contains(p) implies (
    #[trigger] positions[p]@).no_duplicates() by {
        if p == moved {
            if held_positions.dom().contains(p) {
                assert(held_positions[p]@.no_duplicates());
            }
            assert(positions[p]@ =~= entries.push(index));
        } else {
            assert(held_positions[p]@.no_duplicates());
        }
    }
    assert forall|i: usize|
        i < after.len() && (#[trigger] after[i as int]) is Some && !rest.contains(i) implies {
        &&& row_predicate(schema, OldRowView::Full(after[i as int]->0)) is Ok
        &&& positions.dom().contains(
            row_predicate(schema, OldRowView::Full(after[i as int]->0))->Ok_0,
        )
        &&& positions[row_predicate(schema, OldRowView::Full(after[i as int]->0))->Ok_0]@.contains(i)
    } by {
        if i == index {
            assert(positions[moved]@[entries.len() as int] == index);
        } else {
            assert(held[i as int] == after[i as int]);
            assert(!moving.contains(i));
            let p = row_predicate(schema, OldRowView::Full(held[i as int]->0))->Ok_0;
            assert(held_positions[p]@.contains(i));
            let j = choose|j: int| 0 <= j < held_positions[p]@.len() && held_positions[p]@[j] == i;
            if p == moved {
                assert(entries[j] == i);
                assert(positions[p]@[j] == i);
            } else {
                assert(positions[p]@[j] == i);
            }
        }
    }
}

/// Whether a predicate and a key are those of one identity.
pub open spec fn paired(
    schema: SchemaView,
    predicate: Seq<char>,
    key: Seq<ComponentView>,
) -> bool {
    exists|cells: Seq<CellView>|
        {
            &&& key == #[trigger] components_of(cells)
            &&& predicate == identity_text(identity_columns(schema), cells)
            &&& cells.len() == identity_columns(schema).len()
        }
}

/// Whether predicates and keys are those of the same identities, in the same order.
pub open spec fn all_paired(
    schema: SchemaView,
    predicates: Seq<Seq<char>>,
    keys: Seq<Seq<ComponentView>>,
) -> bool {
    &&& predicates.len() == keys.len()
    &&& forall|k: int|
        0 <= k < keys.len() ==> paired(schema, predicates[k], #[trigger] keys[k])
}

/// Whether a delete has keys, and they are those of the identities it names.
pub open spec fn deletes_by_key(schema: SchemaView, op: RowOp) -> bool {
    op matches RowOp::Delete { predicates, keys, .. } ==> (keys matches Some(keys)
        && all_paired(schema, predicates, keys))
}

spec fn run_deletes_by_key(schema: SchemaView, run: RunView) -> bool {
    &&& all_paired(schema, run.deleted, run.keys)
    &&& forall|i: int| 0 <= i < run.ops.len() ==> deletes_by_key(schema, #[trigger] run.ops[i])
}

proof fn lemma_row_is_paired(schema: SchemaView, row: OldRowView)
    requires
        row_predicate(schema, row) is Ok,
    ensures
        row_key(schema, row) is Ok,
        paired(schema, row_predicate(schema, row)->Ok_0, row_key(schema, row)->Ok_0),
{
    let cells = key_cells(schema, row)->Ok_0;
    assert(cells.len() == identity_columns(schema).len());
    assert(row_key(schema, row)->Ok_0 == components_of(cells));
}

proof fn lemma_pushed_pair(
    schema: SchemaView,
    predicates: Seq<Seq<char>>,
    keys: Seq<Seq<ComponentView>>,
    predicate: Seq<char>,
    key: Seq<ComponentView>,
)
    requires
        all_paired(schema, predicates, keys),
        paired(schema, predicate, key),
    ensures
        all_paired(schema, predicates.push(predicate), keys.push(key)),
{
    let longer = keys.push(key);
    assert forall|k: int| 0 <= k < longer.len() implies paired(
        schema,
        predicates.push(predicate)[k],
        #[trigger] longer[k],
    ) by {
        if k < keys.len() {
            assert(longer[k] == keys[k]);
        }
    }
}

proof fn lemma_inserts_keep_deletes(
    schema: SchemaView,
    run: RunView,
    rows: Seq<Seq<CellView>>,
    count: nat,
)
    requires
        with_inserts(schema, run, rows, count) is Ok,
    ensures
        with_inserts(schema, run, rows, count)->Ok_0.deleted == run.deleted,
        with_inserts(schema, run, rows, count)->Ok_0.keys == run.keys,
        with_inserts(schema, run, rows, count)->Ok_0.ops == run.ops,
        with_inserts(schema, run, rows, count)->Ok_0.recovered == run.recovered,
        with_inserts(schema, run, rows, count)->Ok_0.rows.len() == run.rows.len() + count,
    decreases count,
{
    if count > 0 {
        lemma_inserts_keep_deletes(schema, run, rows, (count - 1) as nat);
    }
}

proof fn lemma_flush_keeps_pairs(schema: SchemaView, run: RunView)
    requires
        run_deletes_by_key(schema, run),
    ensures
        run_deletes_by_key(schema, flushed(run)),
{
    let after = flushed(run);
    assert forall|i: int| 0 <= i < after.ops.len() implies deletes_by_key(
        schema,
        #[trigger] after.ops[i],
    ) by {
        if i < run.ops.len() {
            assert(after.ops[i] == run.ops[i]);
        }
    }
}

proof fn lemma_step_keeps_pairs(schema: SchemaView, run: RunView, mutation: MutationView)
    requires
        run_deletes_by_key(schema, run),
        step(schema, run, mutation) is Ok,
    ensures
        run_deletes_by_key(schema, step(schema, run, mutation)->Ok_0),
{
    match mutation {
        MutationView::Insert(row) => {},
        MutationView::Delete(old_row) => {
            lemma_row_is_paired(schema, old_row);
            lemma_pushed_pair(
                schema,
                run.deleted,
                run.keys,
                row_predicate(schema, old_row)->Ok_0,
                row_key(schema, old_row)->Ok_0,
            );
        },
        MutationView::Replace(row) => {
            let old_row = OldRowView::Full(row);
            lemma_row_is_paired(schema, old_row);
            lemma_pushed_pair(
                schema,
                run.deleted,
                run.keys,
                row_predicate(schema, old_row)->Ok_0,
                row_key(schema, old_row)->Ok_0,
            );
        },
        MutationView::Update { delete_row, new_row } => {
            let predicate = row_predicate(schema, delete_row)->Ok_0;
            let key = row_key(schema, delete_row)->Ok_0;
            lemma_row_is_paired(schema, delete_row);
            lemma_pushed_pair(schema, run.deleted, run.keys, predicate, key);
            if new_row is Partial {
                let partial = new_row->Partial_0;
                let stored = run.recovered.rows;
                let after = step(schema, run, mutation)->Ok_0;
                if run.deleted.contains(predicate) || (has_pending(schema, run.rows, predicate)
                    && stored.dom().contains(predicate) && stored[predicate].len() == 0) {
                    assert(after.deleted == run.deleted && after.keys == run.keys && after.ops
                        == run.ops);
                } else if stored.dom().contains(predicate) && stored[predicate].len() > 0 {
                    let rows = completed_rows(schema, partial, run.recovered, predicate)->Ok_0;
                    let middle = RunView {
                        rows: patch_pending(schema, run.rows, predicate, partial)->Ok_0,
                        deleted: run.deleted.push(predicate),
                        keys: run.keys.push(key),
                        origin: Some(merged_origin(run.origin, DeleteOrigin::Update)),
                        ..run
                    };
                    lemma_inserts_keep_deletes(schema, middle, rows, rows.len());
                } else {
                    let clear = flushed(run);
                    lemma_flush_keeps_pairs(schema, run);
                    assert forall|i: int| 0 <= i < after.ops.len() implies deletes_by_key(
                        schema,
                        #[trigger] after.ops[i],
                    ) by {
                        if i < clear.ops.len() {
                            assert(after.ops[i] == clear.ops[i]);
                        }
                    }
                }
            }
        },
    }
}

proof fn lemma_steps_keep_pairs(
    schema: SchemaView,
    run: RunView,
    mutations: Seq<MutationView>,
)
    requires
        run_deletes_by_key(schema, run),
        steps(schema, run, mutations) is Ok,
    ensures
        run_deletes_by_key(schema, steps(schema, run, mutations)->Ok_0),
    decreases mutations.len(),
{
    if mutations.len() > 0 {
        lemma_steps_keep_pairs(schema, run, mutations.drop_last());
        lemma_step_keeps_pairs(
            schema,
            steps(schema, run, mutations.drop_last())->Ok_0,
            mutations.last(),
        );
    }
}

/// Every delete of a normalized batch names each identity twice, by a predicate and by a
/// key, and both are those of the same values: deleting by the keys is deleting by the
/// predicates.
pub proof fn law_keys_and_predicates_name_the_same_identities(
    schema: SchemaView,
    mutations: Seq<MutationView>,
    recovered: RecoveredView,
    index: int,
)
    requires
        normalized(schema, mutations, recovered) is Ok,
        0 <= index < normalized(schema, mutations, recovered)->Ok_0.len(),
    ensures
        deletes_by_key(schema, normalized(schema, mutations, recovered)->Ok_0[index]),
{
    let fresh = fresh_run(recovered);
    lemma_steps_keep_pairs(schema, fresh, mutations);
    lemma_flush_keeps_pairs(schema, steps(schema, fresh, mutations)->Ok_0);
}

/// The origin of deletes that were merged one after the other.
pub open spec fn merged_all(origins: Seq<DeleteOrigin>) -> Option<DeleteOrigin>
    decreases origins.len(),
{
    if origins.len() == 0 {
        None
    } else {
        Some(merged_origin(merged_all(origins.drop_last()), origins.last()))
    }
}

/// Deletes of one origin keep it when they are merged, and any others are mixed.
pub proof fn law_merged_deletes_keep_a_common_origin(origins: Seq<DeleteOrigin>)
    requires
        origins.len() > 0,
    ensures
        merged_all(origins) == Some(
            if forall|i: int| 0 <= i < origins.len() ==> #[trigger] origins[i] == origins[0] {
                origins[0]
            } else {
                DeleteOrigin::Mixed
            },
        ),
    decreases origins.len(),
{
    let last = origins.len() - 1;
    let shorter = origins.drop_last();
    if shorter.len() > 0 {
        law_merged_deletes_keep_a_common_origin(shorter);
        let all = forall|i: int| 0 <= i < origins.len() ==> #[trigger] origins[i] == origins[0];
        let fewer = forall|i: int| 0 <= i < shorter.len() ==> #[trigger] shorter[i] == shorter[0];
        assert(shorter[0] == origins[0]);
        assert(origins.last() == origins[last]);
        assert(all == (fewer && origins[last] == origins[0])) by {
            assert(forall|i: int| 0 <= i < last ==> (#[trigger] shorter[i]) == origins[i]);
            assert(forall|i: int| 0 <= i < last ==> (#[trigger] origins[i]) == shorter[i]);
        }
    } else {
        assert(merged_all(shorter) is None);
        assert(origins.last() == origins[0]);
    }
}

/// A single change is written as what it is: a removed identity is deleted, with the
/// origin of its change, and a written image is appended behind that.
pub proof fn law_single_change_is_written_as_it_is(
    schema: SchemaView,
    mutation: TableMutation,
    recovered: RecoveredView,
)
    requires
        normalized(schema, seq![mutation@], recovered) is Ok,
    ensures
        ({
            let ops = normalized(schema, seq![mutation@], recovered)->Ok_0;
            match mutation {
                TableMutation::Insert(row) => ops == seq![RowOp::Insert { rows: seq![row@] }],
                TableMutation::Delete(row) => ops == seq![
                    RowOp::Delete {
                        predicates: seq![row_predicate(schema, row@)->Ok_0],
                        keys: Some(seq![row_key(schema, row@)->Ok_0]),
                        origin: DeleteOrigin::Delete,
                    },
                ],
                TableMutation::Replace(row) => ops == seq![
                    RowOp::Delete {
                        predicates: seq![row_predicate(schema, OldTableRow::Full(row)@)->Ok_0],
                        keys: Some(seq![row_key(schema, OldTableRow::Full(row)@)->Ok_0]),
                        origin: DeleteOrigin::Replace,
                    },
                    RowOp::Insert { rows: seq![row@] },
                ],
                TableMutation::Update { delete_row, new_row: UpdatedTableRow::Full(row) } => ops
                    == seq![
                    RowOp::Delete {
                        predicates: seq![row_predicate(schema, delete_row@)->Ok_0],
                        keys: Some(seq![row_key(schema, delete_row@)->Ok_0]),
                        origin: DeleteOrigin::Update,
                    },
                    RowOp::Insert { rows: seq![row@] },
                ],
                TableMutation::Update { delete_row, new_row: UpdatedTableRow::Partial(partial) } =>
                    recovered.rows.dom().contains(row_predicate(schema, delete_row@)->Ok_0)
                    || ops == seq![
                    RowOp::Patch {
                        predicate: row_predicate(schema, delete_row@)->Ok_0,
                        partial: partial@,
                    },
                ],
            }
        }),
{
    let fresh = fresh_run(recovered);
    let events = seq![mutation@];
    assert(events.drop_last() =~= Seq::<MutationView>::empty());
    assert(steps(schema, fresh, events.drop_last()) == Ok::<RunView, ErrorView>(fresh));
    let run = steps(schema, fresh, events)->Ok_0;
    assert(step(schema, fresh, mutation@) == Ok::<RunView, ErrorView>(run));
    let ops = flushed(run).ops;
    match mutation {
        TableMutation::Insert(row) => {
            assert(run.rows =~= seq![Some(row@)]);
            lemma_one_survivor(row@);
            assert(ops =~= seq![RowOp::Insert { rows: seq![row@] }]);
        },
        TableMutation::Delete(row) => {
            lemma_nothing_without(schema, fresh.rows, row_predicate(schema, row@)->Ok_0);
            assert(run.deleted =~= seq![row_predicate(schema, row@)->Ok_0]);
            assert(run.keys =~= seq![row_key(schema, row@)->Ok_0]);
            assert(run.rows.len() == 0);
            assert(ops =~= seq![
                RowOp::Delete {
                    predicates: seq![row_predicate(schema, row@)->Ok_0],
                    keys: Some(seq![row_key(schema, row@)->Ok_0]),
                    origin: DeleteOrigin::Delete,
                },
            ]);
        },
        TableMutation::Replace(row) => {
            let old_row = OldTableRow::Full(row)@;
            lemma_one_survivor(row@);
            assert(run.deleted =~= seq![row_predicate(schema, old_row)->Ok_0]);
            assert(run.keys =~= seq![row_key(schema, old_row)->Ok_0]);
            assert(run.rows =~= seq![Some(row@)]);
            assert(ops =~= seq![
                RowOp::Delete {
                    predicates: seq![row_predicate(schema, old_row)->Ok_0],
                    keys: Some(seq![row_key(schema, old_row)->Ok_0]),
                    origin: DeleteOrigin::Replace,
                },
                RowOp::Insert { rows: seq![row@] },
            ]);
        },
        TableMutation::Update { delete_row, new_row: UpdatedTableRow::Full(row) } => {
            lemma_one_survivor(row@);
            assert(run.deleted =~= seq![row_predicate(schema, delete_row@)->Ok_0]);
            assert(run.keys =~= seq![row_key(schema, delete_row@)->Ok_0]);
            assert(run.rows =~= seq![Some(row@)]);
            assert(ops =~= seq![
                RowOp::Delete {
                    predicates: seq![row_predicate(schema, delete_row@)->Ok_0],
                    keys: Some(seq![row_key(schema, delete_row@)->Ok_0]),
                    origin: DeleteOrigin::Update,
                },
                RowOp::Insert { rows: seq![row@] },
            ]);
        },
        TableMutation::Update { delete_row, new_row: UpdatedTableRow::Partial(partial) } => {
            let predicate = row_predicate(schema, delete_row@)->Ok_0;
            if !recovered.rows.dom().contains(predicate) {
                assert(flushed(fresh).ops =~= Seq::<RowOp>::empty());
                assert(ops =~= seq![RowOp::Patch { predicate, partial: partial@ }]);
            }
        },
    }
}

proof fn lemma_one_survivor(row: Seq<CellView>)
    ensures
        survivors(seq![Some(row)]) == seq![row],
{
    let slots = seq![Some(row)];
    assert(slots.drop_last() =~= Seq::<Option<Seq<CellView>>>::empty());
    assert(survivors(slots.drop_last()) =~= Seq::<Seq<CellView>>::empty());
    assert(survivors(slots) =~= seq![row]);
}

proof fn lemma_nothing_without(
    schema: SchemaView,
    rows: Seq<Option<Seq<CellView>>>,
    predicate: Seq<char>,
)
    requires
        rows.len() == 0,
    ensures
        rows_without(schema, rows, predicate).len() == 0,
{
}

/// Whether a change has the shape of its table: the identity it removes can be read, a
/// full image has a value for every column, and a partial one says of every column
/// whether it carries it and carries some.
pub open spec fn fits_schema(columns: Seq<ColumnSchema>, mutation: TableMutation) -> bool {
    &&& identity_positions(columns).len() > 0
    &&& old_image(mutation) matches Some(row) ==> image_fits(columns, row)
    &&& match mutation {
        TableMutation::Insert(row) => row.values@.len() == columns.len(),
        TableMutation::Update { new_row: UpdatedTableRow::Full(row), .. } => row.values@.len()
            == columns.len(),
        TableMutation::Update { new_row: UpdatedTableRow::Partial(partial), .. } => fits_table(
            partial,
            columns.len(),
        ) && partial.row.values@.len() > 0,
        _ => true,
    }
}

proof fn lemma_readable_identity(name: Seq<char>, columns: Seq<ColumnSchema>, row: OldTableRow)
    ensures
        row_predicate(SchemaView { name, columns: column_views(columns) }, row@) is Ok
            <==> identity_positions(columns).len() > 0 && image_fits(columns, row),
{
    law_identity_is_read_at_the_identity_columns(name, columns, row);
}

/// Changes that have the shape of their table are prepared, whatever their order, and
/// changes whose identity cannot be read never are.
pub proof fn law_fitting_changes_are_normalized(
    name: Seq<char>,
    columns: Seq<ColumnSchema>,
    mutations: Seq<TableMutation>,
    index: int,
)
    ensures
        ({
            let schema = SchemaView { name, columns: column_views(columns) };
            let outcome = normalized(schema, mutation_views(mutations), nothing_recovered());
            &&& (forall|i: int|
                0 <= i < mutations.len() ==> fits_schema(columns, #[trigger] mutations[i]))
                ==> outcome is Ok
            &&& outcome is Ok && 0 <= index < mutations.len() ==> (old_image(mutations[index])
                matches Some(row) ==> identity_positions(columns).len() > 0 && image_fits(
                columns,
                row,
            )) && (mutations[index] matches TableMutation::Insert(row) ==> row.values@.len()
                == columns.len())
        }),
{
    let schema = SchemaView { name, columns: column_views(columns) };
    if forall|i: int| 0 <= i < mutations.len() ==> fits_schema(columns, #[trigger] mutations[i]) {
        lemma_fitting_steps(name, columns, mutations);
    }
    if normalized(schema, mutation_views(mutations), nothing_recovered()) is Ok && 0 <= index
        < mutations.len() {
        lemma_done_steps(
            schema,
            fresh_run(nothing_recovered()),
            mutation_views(mutations),
            index,
        );
        assert(mutation_views(mutations)[index] == mutations[index]@);
        match mutations[index] {
            TableMutation::Insert(row) => lemma_readable_identity(
                name,
                columns,
                OldTableRow::Full(row),
            ),
            TableMutation::Delete(row) => lemma_readable_identity(name, columns, row),
            TableMutation::Replace(row) => lemma_readable_identity(
                name,
                columns,
                OldTableRow::Full(row),
            ),
            TableMutation::Update { delete_row, .. } => lemma_readable_identity(
                name,
                columns,
                delete_row,
            ),
        }
    }
}

proof fn lemma_done_steps(
    schema: SchemaView,
    run: RunView,
    mutations: Seq<MutationView>,
    index: int,
)
    requires
        steps(schema, run, mutations) is Ok,
        0 <= index < mutations.len(),
    ensures
        exists|before: RunView| #[trigger] step(schema, before, mutations[index]) is Ok,
    decreases mutations.len(),
{
    let shorter = mutations.drop_last();
    if index < shorter.len() {
        lemma_done_steps(schema, run, shorter, index);
        assert(shorter[index] == mutations[index]);
    } else {
        let before = steps(schema, run, shorter)->Ok_0;
        assert(step(schema, before, mutations[index]) is Ok);
    }
}

proof fn lemma_fitting_steps(
    name: Seq<char>,
    columns: Seq<ColumnSchema>,
    mutations: Seq<TableMutation>,
)
    requires
        forall|i: int|
            0 <= i < mutations.len() ==> fits_schema(columns, #[trigger] mutations[i]),
    ensures
        ({
            let schema = SchemaView { name, columns: column_views(columns) };
            let outcome = steps(
                schema,
                fresh_run(nothing_recovered()),
                mutation_views(mutations),
            );
            outcome is Ok && outcome->Ok_0.recovered == nothing_recovered()
        }),
    decreases mutations.len(),
{
    let schema = SchemaView { name, columns: column_views(columns) };
    let events = mutation_views(mutations);
    if mutations.len() > 0 {
        let shorter = mutations.drop_last();
        let last = mutations.len() - 1;
        let mutation = mutations[last];
        assert forall|i: int| 0 <= i < shorter.len() implies fits_schema(
            columns,
            #[trigger] shorter[i],
        ) by {
            assert(shorter[i] == mutations[i]);
        }
        lemma_fitting_steps(name, columns, shorter);
        assert(events.drop_last() =~= mutation_views(shorter));
        assert(events.last() == mutation@);
        assert(fits_schema(columns, mutation));
        let run = steps(schema, fresh_run(nothing_recovered()), mutation_views(shorter))->Ok_0;
        match mutation {
            TableMutation::Insert(row) => lemma_readable_identity(
                name,
                columns,
                OldTableRow::Full(row),
            ),
            TableMutation::Delete(row) => lemma_readable_identity(name, columns, row),
            TableMutation::Replace(row) => lemma_readable_identity(
                name,
                columns,
                OldTableRow::Full(row),
            ),
            TableMutation::Update { delete_row, new_row } => {
                lemma_readable_identity(name, columns, delete_row);
                match new_row {
                    UpdatedTableRow::Full(row) => lemma_readable_identity(
                        name,
                        columns,
                        OldTableRow::Full(row),
                    ),
                    UpdatedTableRow::Partial(partial) => {
                        law_assignments_write_the_carried_values(name, columns, partial);
                        assert(columns.len() > 0) by {
                            if columns.len() == 0 {
                                assert(partial.row.values@.len() == 0);
                            }
                        }
                        law_carried_value_stands_at_its_rank(partial, columns.len(), 0);
                        lemma_fitting_row_patches(partial@, columns.len());
                    },
                }
            },
        }
        assert(run.recovered.rows.dom() =~= Set::empty());
    }
}

/// Changes are normalized where every identity column is an integer of the source's
/// three widths or a UUID, none of them an array, and there is one; all others keep their
/// order.
pub proof fn law_preparation_goes_by_the_identity(
    name: Seq<char>,
    columns: Seq<ColumnSchema>,
    mutations: Seq<MutationView>,
    recovered: RecoveredView,
)
    ensures
        ({
            let schema = SchemaView { name, columns: column_views(columns) };
            let comparable = (exists|i: int|
                0 <= i < columns.len() && (#[trigger] columns[i]).identity) && forall|i: int|
                0 <= i < columns.len() && (#[trigger] columns[i]).identity
                    ==> !columns[i].column_type.is_array && (columns[i].column_type.kind is Int2
                    || columns[i].column_type.kind is Int4 || columns[i].column_type.kind is Int8
                    || columns[i].column_type.kind is Uuid);
            prepared_ops(schema, mutations, recovered) == if comparable {
                normalized(schema, mutations, recovered)
            } else {
                ordered(schema, mutations)
            }
        }),
{
    law_canonical_identities_are_integers_and_uuids(name, columns);
}

/// What a statement is prepared as: rows as their payload, identities as the predicates
/// and, where there are keys, as the clause of their keys, and carried values as their
/// assignments.
pub proof fn law_statements_are_prepared_as_they_are(schema: SchemaView, ops: Seq<RowOp>, at: int)
    requires
        0 <= at < ops.len(),
    ensures
        rendered_all(schema, ops).len() == ops.len(),
        match ops[at] {
            RowOp::Delete { predicates, keys, origin } => rendered_all(schema, ops)[at] == (
            PreparedView::Delete {
                predicates,
                key_set: match keys {
                    Some(keys) => Some(using_clause(identity_column_names(schema), keys)),
                    None => None,
                },
                origin,
            }),
            RowOp::Insert { rows } => rendered_all(schema, ops)[at] == PreparedView::Upsert(
                prepared_rows(rows),
            ),
            RowOp::Patch { predicate, partial } => rendered_all(schema, ops)[at]
                matches PreparedView::Update { assignments, predicate: by } && by == predicate && (
            partial_assignments(schema, partial) is Ok ==> partial_assignments(schema, partial)
                == Ok::<Seq<Seq<char>>, ErrorView>(assignments)),
        },
{
}

/// The origins of the identities that changes remove, in order.
pub open spec fn removal_origins(mutations: Seq<TableMutation>) -> Seq<DeleteOrigin>
    decreases mutations.len(),
{
    if mutations.len() == 0 {
        Seq::empty()
    } else {
        let earlier = removal_origins(mutations.drop_last());
        match mutations.last() {
            TableMutation::Insert(_) => earlier,
            TableMutation::Delete(_) => earlier.push(DeleteOrigin::Delete),
            TableMutation::Replace(_) => earlier.push(DeleteOrigin::Replace),
            TableMutation::Update { .. } => earlier.push(DeleteOrigin::Update),
        }
    }
}

/// Whether every image that changes write is a full one.
pub open spec fn writes_full_images(mutations: Seq<TableMutation>) -> bool {
    forall|i: int|
        0 <= i < mutations.len() ==> !(#[trigger] mutations[i] matches TableMutation::Update {
            new_row: UpdatedTableRow::Partial(_),
            ..
        })
}

proof fn lemma_origins_merge(
    schema: SchemaView,
    mutations: Seq<TableMutation>,
    recovered: RecoveredView,
)
    requires
        writes_full_images(mutations),
        steps(schema, fresh_run(recovered), mutation_views(mutations)) is Ok,
    ensures
        ({
            let run = steps(schema, fresh_run(recovered), mutation_views(mutations))->Ok_0;
            &&& run.origin == merged_all(removal_origins(mutations))
            &&& run.ops.len() == 0
            &&& run.deleted.len() > 0 <==> removal_origins(mutations).len() > 0
        }),
    decreases mutations.len(),
{
    let events = mutation_views(mutations);
    if mutations.len() > 0 {
        let shorter = mutations.drop_last();
        let last = mutations.len() - 1;
        assert forall|i: int| 0 <= i < shorter.len() implies !(
        #[trigger] shorter[i] matches TableMutation::Update {
            new_row: UpdatedTableRow::Partial(_),
            ..
        }) by {
            assert(shorter[i] == mutations[i]);
        }
        assert(events.drop_last() =~= mutation_views(shorter));
        assert(events.last() == mutations[last]@);
        lemma_origins_merge(schema, shorter, recovered);
        let earlier = removal_origins(shorter);
        let own = match mutations[last] {
            TableMutation::Insert(_) => DeleteOrigin::Mixed,
            TableMutation::Delete(_) => DeleteOrigin::Delete,
            TableMutation::Replace(_) => DeleteOrigin::Replace,
            TableMutation::Update { .. } => DeleteOrigin::Update,
        };
        assert(earlier.push(own).drop_last() =~= earlier);
        assert(mutations.last() == mutations[last]);
    }
}

/// The deletes of changes that write full images are one statement, of the common origin
/// of the changes that remove identities where they have one, and mixed otherwise.
pub proof fn law_normalized_deletes_have_the_common_origin(
    schema: SchemaView,
    mutations: Seq<TableMutation>,
    recovered: RecoveredView,
)
    requires
        writes_full_images(mutations),
        normalized(schema, mutation_views(mutations), recovered) is Ok,
    ensures
        ({
            let ops = normalized(schema, mutation_views(mutations), recovered)->Ok_0;
            let origins = removal_origins(mutations);
            &&& forall|i: int| 1 <= i < ops.len() ==> !(#[trigger] ops[i] is Delete)
            &&& origins.len() == 0 <==> ops.len() == 0 || !(ops[0] is Delete)
            &&& origins.len() > 0 ==> (ops[0] matches RowOp::Delete { origin, .. } && origin == (
            if forall|i: int| 0 <= i < origins.len() ==> #[trigger] origins[i] == origins[0] {
                origins[0]
            } else {
                DeleteOrigin::Mixed
            }))
        }),
{
    let origins = removal_origins(mutations);
    lemma_origins_merge(schema, mutations, recovered);
    if origins.len() > 0 {
        law_merged_deletes_keep_a_common_origin(origins);
    }
}

/// An identity has pending rows exactly when dropping the rows at it changes what is
/// pending; afterwards it has none. Patching them keeps every slot, and touches no other.
pub proof fn law_pending_rows_are_those_at_the_identity(
    schema: SchemaView,
    rows: Seq<Option<Seq<CellView>>>,
    predicate: Seq<char>,
    partial: PartialRowView,
    slot: int,
)
    requires
        0 <= slot < rows.len(),
    ensures
        has_pending(schema, rows, predicate) <==> rows_without(schema, rows, predicate) != rows,
        !has_pending(schema, rows_without(schema, rows, predicate), predicate),
        rows_without(schema, rows, predicate).len() == rows.len(),
        rows_patched(schema, rows, predicate, partial).len() == rows.len(),
        ({
            let at = rows[slot] matches Some(row) && row_predicate(schema, OldRowView::Full(row))
                == Ok::<Seq<char>, ErrorView>(predicate);
            &&& rows_without(schema, rows, predicate)[slot] == (if at {
                None
            } else {
                rows[slot]
            })
            &&& rows_patched(schema, rows, predicate, partial)[slot] == (if at {
                Some(patched_row(partial, rows[slot]->0))
            } else {
                rows[slot]
            })
            &&& at ==> has_pending(schema, rows, predicate)
        }),
{
    let without = rows_without(schema, rows, predicate);
    if has_pending(schema, rows, predicate) {
        let i = choose|i: int|
            0 <= i < rows.len() && is_at(schema, #[trigger] rows[i], predicate);
        assert(without[i] is None && rows[i] is Some);
    } else {
        assert forall|i: int| 0 <= i < rows.len() implies without[i] == rows[i] by {
            assert(!is_at(schema, rows[i], predicate));
        }
        assert(without =~= rows);
    }
    if has_pending(schema, without, predicate) {
        let i = choose|i: int|
            0 <= i < without.len() && is_at(schema, #[trigger] without[i], predicate);
        assert(is_at(schema, rows[i], predicate));
    }
    assert(is_at(schema, rows[slot], predicate) ==> has_pending(schema, rows, predicate));
}

/// A partial update writes no statement of its own where all rows at its identity are
/// pending, or where what is stored at it was read: pending rows are patched, and stored
/// ones are deleted and appended completed. Everywhere else what is pending is written
/// first, the update is a statement of its own, and what was read is taken for stale.
pub proof fn law_partial_updates_are_written_late(
    schema: SchemaView,
    run: RunView,
    predicate: Seq<char>,
    key: Seq<ComponentView>,
    partial: PartialRowView,
    slot: int,
)
    requires
        with_partial_update(schema, run, predicate, key, partial) is Ok,
    ensures
        ({
            let after = with_partial_update(schema, run, predicate, key, partial)->Ok_0;
            let stored = run.recovered.rows;
            let pending = 0 <= slot < run.rows.len() && (run.rows[slot] matches Some(row)
                && row_predicate(schema, OldRowView::Full(row)) == Ok::<Seq<char>, ErrorView>(
                predicate,
            ));
            &&& run.deleted.contains(predicate) || (pending && stored.dom().contains(predicate)
                && stored[predicate].len() == 0) ==> {
                &&& after.ops == run.ops && after.deleted == run.deleted && after.keys == run.keys
                &&& after.recovered == run.recovered && after.origin == run.origin
                &&& after.rows == rows_patched(schema, run.rows, predicate, partial)
            }
            &&& !run.deleted.contains(predicate) && stored.dom().contains(predicate)
                && stored[predicate].len() > 0 ==> {
                &&& after.ops == run.ops
                &&& after.deleted == run.deleted.push(predicate)
                &&& after.keys == run.keys.push(key)
                &&& after.recovered == run.recovered
                &&& after.rows.len() == run.rows.len() + stored[predicate].len()
            }
            &&& !run.deleted.contains(predicate) && !stored.dom().contains(predicate) ==> {
                &&& after.ops.len() > 0
                &&& after.ops.last() == (RowOp::Patch { predicate, partial })
                &&& after.ops.drop_last() == flushed(run).ops
                &&& after.rows.len() == 0 && after.deleted.len() == 0
                &&& after.recovered.rows.dom().len() == 0
            }
        }),
{
    let after = with_partial_update(schema, run, predicate, key, partial)->Ok_0;
    let stored = run.recovered.rows;
    if 0 <= slot < run.rows.len() {
        assert(is_at(schema, run.rows[slot], predicate) ==> has_pending(
            schema,
            run.rows,
            predicate,
        ));
    }
    if !run.deleted.contains(predicate) && stored.dom().contains(predicate)
        && stored[predicate].len() > 0 {
        let rows = completed_rows(schema, partial, run.recovered, predicate)->Ok_0;
        let read = |k: int|
            completed(
                schema,
                partial,
                index_views(run.recovered.columns),
                stored[predicate][k],
            );
        lemma_collect(stored[predicate].len(), read);
        let middle = RunView {
            rows: patch_pending(schema, run.rows, predicate, partial)->Ok_0,
            deleted: run.deleted.push(predicate),
            keys: run.keys.push(key),
            origin: Some(merged_origin(run.origin, DeleteOrigin::Update)),
            ..run
        };
        lemma_inserts_keep_deletes(schema, middle, rows, rows.len());
    }
    if !run.deleted.contains(predicate) && !stored.dom().contains(predicate) {
        assert(after.ops.drop_last() =~= flushed(run).ops);
        assert(after.recovered.rows.dom() =~= Set::<Seq<char>>::empty());
    }
}

} // verus!
