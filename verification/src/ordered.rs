//! Preparation of changes whose identities only the database can compare.

use vstd::prelude::*;

use crate::data::{
    row_views, CellView, OldRowView, OldTableRow, TableRow, UpdatedRowView, UpdatedTableRow,
};
use crate::error::{ErrorView, EtlError};
use crate::identity::{
    delete_predicate_from_row, image_fits, law_identity_is_read_at_the_identity_columns,
    row_predicate, DeletePredicateRowRef,
};
use crate::literal::prepare_rows;
use crate::mutation::{
    mutation_views, prepared_views, DeleteOrigin, MutationView, PreparedTableMutation,
    TableMutation,
};
use crate::normalize::{rendered, rendered_all, RowOp};
use crate::partial_row::{
    fits_table, law_assignments_write_the_carried_values, partial_assignments,
    update_assignments_from_partial_row,
};
use crate::recovery_plan::old_image;
use crate::schema::{
    column_views, identity_positions, ColumnSchema, ReplicatedTableSchema, SchemaView,
};
use crate::text::texts;

verus! {

/// What ordered preparation holds between two events: the statements so far,
/// and the run of inserts or deletes not yet turned into one.
pub struct OrderedView {
    pub ops: Seq<RowOp>,
    pub inserts: Seq<Seq<CellView>>,
    pub deletes: Seq<Seq<char>>,
}

/// The delete statement of predicates, without a key set.
pub open spec fn ordered_delete(predicates: Seq<Seq<char>>, origin: DeleteOrigin) -> RowOp {
    RowOp::Delete { predicates, keys: None, origin }
}

/// The state once pending inserts became a statement.
pub open spec fn inserts_flushed(state: OrderedView) -> OrderedView {
    if state.inserts.len() == 0 {
        state
    } else {
        OrderedView {
            ops: state.ops.push(RowOp::Insert { rows: state.inserts }),
            inserts: Seq::empty(),
            ..state
        }
    }
}

/// The state once pending deletes became a statement.
pub open spec fn deletes_flushed(state: OrderedView) -> OrderedView {
    if state.deletes.len() == 0 {
        state
    } else {
        OrderedView {
            ops: state.ops.push(ordered_delete(state.deletes, DeleteOrigin::Delete)),
            deletes: Seq::empty(),
            ..state
        }
    }
}

/// The state once every pending row and predicate became a statement.
pub open spec fn ordered_flushed(state: OrderedView) -> OrderedView {
    deletes_flushed(inserts_flushed(state))
}

/// The state once one identity was deleted and one row appended, as statements
/// of their own.
pub open spec fn ordered_rewrite(
    state: OrderedView,
    predicate: Seq<char>,
    row: Seq<CellView>,
    origin: DeleteOrigin,
) -> OrderedView {
    let clear = ordered_flushed(state);
    OrderedView {
        ops: clear.ops.push(ordered_delete(seq![predicate], origin)).push(
            RowOp::Insert { rows: seq![row] },
        ),
        ..clear
    }
}

/// The state once one event was prepared.
pub open spec fn ordered_step(
    schema: SchemaView,
    state: OrderedView,
    mutation: MutationView,
) -> Result<OrderedView, ErrorView> {
    match mutation {
        MutationView::Insert(row) => {
            let clear = deletes_flushed(state);
            Ok(OrderedView { inserts: clear.inserts.push(row), ..clear })
        },
        MutationView::Delete(old_row) => match row_predicate(schema, old_row) {
            Err(error) => Err(error),
            Ok(predicate) => {
                let clear = inserts_flushed(state);
                Ok(OrderedView { deletes: clear.deletes.push(predicate), ..clear })
            },
        },
        MutationView::Update { delete_row, new_row } => match new_row {
            UpdatedRowView::Full(row) => match row_predicate(schema, delete_row) {
                Err(error) => Err(error),
                Ok(predicate) => Ok(ordered_rewrite(state, predicate, row, DeleteOrigin::Update)),
            },
            UpdatedRowView::Partial(partial) => match partial_assignments(schema, partial) {
                Err(error) => Err(error),
                Ok(_) => match row_predicate(schema, delete_row) {
                    Err(error) => Err(error),
                    Ok(predicate) => {
                        let clear = ordered_flushed(state);
                        Ok(
                            OrderedView {
                                ops: clear.ops.push(RowOp::Patch { predicate, partial }),
                                ..clear
                            },
                        )
                    },
                },
            },
        },
        MutationView::Replace(row) => match row_predicate(schema, OldRowView::Full(row)) {
            Err(error) => Err(error),
            Ok(predicate) => Ok(ordered_rewrite(state, predicate, row, DeleteOrigin::Replace)),
        },
    }
}

/// The state once events were prepared, in order.
pub open spec fn ordered_steps(schema: SchemaView, mutations: Seq<MutationView>) -> Result<
    OrderedView,
    ErrorView,
>
    decreases mutations.len(),
{
    if mutations.len() == 0 {
        Ok(OrderedView { ops: Seq::empty(), inserts: Seq::empty(), deletes: Seq::empty() })
    } else {
        match ordered_steps(schema, mutations.drop_last()) {
            Err(error) => Err(error),
            Ok(state) => ordered_step(schema, state, mutations.last()),
        }
    }
}

/// The statements a batch of changes becomes when SQL order is kept.
pub open spec fn ordered(schema: SchemaView, mutations: Seq<MutationView>) -> Result<
    Seq<RowOp>,
    ErrorView,
> {
    match ordered_steps(schema, mutations) {
        Err(error) => Err(error),
        Ok(state) => Ok(ordered_flushed(state).ops),
    }
}

/// Working state of ordered preparation.
struct OrderedRun {
    prepared: Vec<PreparedTableMutation>,
    inserts: Vec<TableRow>,
    deletes: Vec<String>,
    ops: Ghost<Seq<RowOp>>,
}

impl OrderedRun {
    spec fn model(&self) -> OrderedView {
        OrderedView {
            ops: self.ops@,
            inserts: row_views(self.inserts@),
            deletes: texts(self.deletes@),
        }
    }

    spec fn wf(&self, schema: SchemaView) -> bool {
        prepared_views(self.prepared@) == rendered_all(schema, self.ops@)
    }

    fn push(&mut self, schema: Ghost<SchemaView>, op: Ghost<RowOp>, mutation: PreparedTableMutation)
        requires
            old(self).wf(schema@),
            mutation@ == rendered(schema@, op@),
        ensures
            final(self).wf(schema@),
            final(self).model() == (OrderedView {
                ops: old(self).model().ops.push(op@),
                ..old(self).model()
            }),
    {
        let ghost held = self.prepared@;
        let ghost ops = self.ops@;
        self.prepared.push(mutation);
        proof {
            self.ops@ = ops.push(op@);
            assert(prepared_views(self.prepared@) =~= prepared_views(held).push(mutation@));
            assert(rendered_all(schema@, self.ops@) =~= rendered_all(schema@, ops).push(
                rendered(schema@, op@),
            ));
        }
    }

    fn push_delete(&mut self, schema: Ghost<SchemaView>, predicates: Vec<String>, origin: DeleteOrigin)
        requires
            old(self).wf(schema@),
        ensures
            final(self).wf(schema@),
            final(self).model() == (OrderedView {
                ops: old(self).model().ops.push(ordered_delete(texts(predicates@), origin)),
                ..old(self).model()
            }),
    {
        let ghost op = ordered_delete(texts(predicates@), origin);
        self.push(
            schema,
            Ghost(op),
            PreparedTableMutation::Delete { predicates, key_set: None, origin },
        );
    }

    fn push_insert(&mut self, schema: Ghost<SchemaView>, rows: Vec<TableRow>)
        requires
            old(self).wf(schema@),
        ensures
            final(self).wf(schema@),
            final(self).model() == (OrderedView {
                ops: old(self).model().ops.push(RowOp::Insert { rows: row_views(rows@) }),
                ..old(self).model()
            }),
    {
        let ghost op = RowOp::Insert { rows: row_views(rows@) };
        self.push(schema, Ghost(op), PreparedTableMutation::Upsert(prepare_rows(rows)));
    }

    fn flush_inserts(&mut self, schema: Ghost<SchemaView>)
        requires
            old(self).wf(schema@),
        ensures
            final(self).wf(schema@),
            final(self).model() == inserts_flushed(old(self).model()),
    {
        if self.inserts.len() > 0 {
            let mut rows: Vec<TableRow> = Vec::new();
            core::mem::swap(&mut rows, &mut self.inserts);
            self.push_insert(schema, rows);
            assert(self.model().inserts =~= Seq::empty());
        }
    }

    fn flush_deletes(&mut self, schema: Ghost<SchemaView>)
        requires
            old(self).wf(schema@),
        ensures
            final(self).wf(schema@),
            final(self).model() == deletes_flushed(old(self).model()),
    {
        if self.deletes.len() > 0 {
            let mut predicates: Vec<String> = Vec::new();
            core::mem::swap(&mut predicates, &mut self.deletes);
            self.push_delete(schema, predicates, DeleteOrigin::Delete);
            assert(self.model().deletes =~= Seq::empty());
        }
    }

    /// Deletes one identity and appends one row, as statements of their own.
    fn rewrite(
        &mut self,
        schema: Ghost<SchemaView>,
        predicate: String,
        row: TableRow,
        origin: DeleteOrigin,
    )
        requires
            old(self).wf(schema@),
        ensures
            final(self).wf(schema@),
            final(self).model() == ordered_rewrite(old(self).model(), predicate@, row@, origin),
    {
        self.flush_inserts(schema);
        self.flush_deletes(schema);
        let mut predicates: Vec<String> = Vec::new();
        predicates.push(predicate);
        assert(texts(predicates@) =~= seq![predicate@]);
        self.push_delete(schema, predicates, origin);
        let mut rows: Vec<TableRow> = Vec::new();
        rows.push(row);
        assert(row_views(rows@) =~= seq![row@]);
        self.push_insert(schema, rows);
    }

    /// Prepares one event.
    fn apply(&mut self, schema: &ReplicatedTableSchema, mutation: TableMutation) -> (r: Result<
        (),
        EtlError,
    >)
        requires
            old(self).wf(schema@),
        ensures
            match r {
                Ok(_) => final(self).wf(schema@) && ordered_step(
                    schema@,
                    old(self).model(),
                    mutation@,
                ) == Ok::<OrderedView, ErrorView>(final(self).model()),
                Err(error) => ordered_step(schema@, old(self).model(), mutation@) == Err::<
                    OrderedView,
                    ErrorView,
                >(error@),
            },
    {
        match mutation {
            TableMutation::Insert(row) => {
                self.flush_deletes(Ghost(schema@));
                let ghost held = row_views(self.inserts@);
                self.inserts.push(row);
                assert(row_views(self.inserts@) =~= held.push(row@));
            },
            TableMutation::Delete(old_row) => {
                let image = DeletePredicateRowRef::from_old(&old_row);
                let predicate = match delete_predicate_from_row(schema, image) {
                    Ok(predicate) => predicate,
                    Err(error) => return Err(error),
                };
                self.flush_inserts(Ghost(schema@));
                let ghost held = texts(self.deletes@);
                self.deletes.push(predicate);
                assert(texts(self.deletes@) =~= held.push(predicate@));
            },
            TableMutation::Update { delete_row, new_row } => {
                let image = DeletePredicateRowRef::from_old(&delete_row);
                match new_row {
                    UpdatedTableRow::Full(row) => {
                        let predicate = match delete_predicate_from_row(schema, image) {
                            Ok(predicate) => predicate,
                            Err(error) => return Err(error),
                        };
                        self.rewrite(Ghost(schema@), predicate, row, DeleteOrigin::Update);
                    },
                    UpdatedTableRow::Partial(partial) => {
                        let assignments = match update_assignments_from_partial_row(
                            schema,
                            &partial,
                        ) {
                            Ok(assignments) => assignments,
                            Err(error) => return Err(error),
                        };
                        let predicate = match delete_predicate_from_row(schema, image) {
                            Ok(predicate) => predicate,
                            Err(error) => return Err(error),
                        };
                        self.flush_inserts(Ghost(schema@));
                        self.flush_deletes(Ghost(schema@));
                        let ghost op = RowOp::Patch { predicate: predicate@, partial: partial@ };
                        self.push(
                            Ghost(schema@),
                            Ghost(op),
                            PreparedTableMutation::Update { assignments, predicate },
                        );
                    },
                }
            },
            TableMutation::Replace(row) => {
                let predicate = match delete_predicate_from_row(
                    schema,
                    DeletePredicateRowRef::Full(&row),
                ) {
                    Ok(predicate) => predicate,
                    Err(error) => return Err(error),
                };
                self.rewrite(Ghost(schema@), predicate, row, DeleteOrigin::Replace);
            },
        }
        Ok(())
    }
}

proof fn lemma_ordered_steps_fail(schema: SchemaView, mutations: Seq<MutationView>, shorter: int)
    requires
        0 <= shorter <= mutations.len(),
        ordered_steps(schema, mutations.take(shorter)) is Err,
    ensures
        ordered_steps(schema, mutations) == ordered_steps(schema, mutations.take(shorter)),
    decreases mutations.len(),
{
    if shorter == mutations.len() {
        assert(mutations.take(shorter) =~= mutations);
    } else {
        let rest = mutations.drop_last();
        assert(rest.take(shorter) =~= mutations.take(shorter));
        lemma_ordered_steps_fail(schema, rest, shorter);
    }
}

/// Prepares changes in SQL order: runs of inserts and runs of deletes become
/// one statement each, and every other change a statement of its own.
pub fn prepare_ordered_table_mutations(
    schema: &ReplicatedTableSchema,
    mutations: Vec<TableMutation>,
) -> (r: Result<Vec<PreparedTableMutation>, EtlError>)
    ensures
        match r {
            Ok(prepared) => ordered(schema@, mutation_views(mutations@)) is Ok && prepared_views(
                prepared@,
            ) == rendered_all(schema@, ordered(schema@, mutation_views(mutations@))->Ok_0),
            Err(error) => ordered(schema@, mutation_views(mutations@)) == Err::<
                Seq<RowOp>,
                ErrorView,
            >(error@),
        },
{
    let ghost events = mutation_views(mutations@);
    let mut run = OrderedRun {
        prepared: Vec::new(),
        inserts: Vec::new(),
        deletes: Vec::new(),
        ops: Ghost(Seq::empty()),
    };
    proof {
        assert(prepared_views(run.prepared@) =~= rendered_all(schema@, run.ops@));
        assert(run.model().inserts =~= Seq::empty());
        assert(run.model().deletes =~= Seq::empty());
        assert(events.take(0) =~= Seq::<MutationView>::empty());
    }
    for mutation in iter: mutations
        invariant
            iter.seq() == mutations@,
            events == mutation_views(mutations@),
            run.wf(schema@),
            ordered_steps(schema@, events.take(iter.index())) == Ok::<OrderedView, ErrorView>(
                run.model(),
            ),
    {
        let ghost longer = events.take(iter.index() + 1);
        assert(longer.drop_last() =~= events.take(iter.index()));
        assert(longer.last() == mutation@);
        match run.apply(schema, mutation) {
            Ok(_) => {},
            Err(error) => {
                proof {
                    lemma_ordered_steps_fail(schema@, events, iter.index() + 1);
                }
                return Err(error);
            },
        }
    }
    assert(events.take(events.len() as int) =~= events);
    run.flush_inserts(Ghost(schema@));
    run.flush_deletes(Ghost(schema@));
    Ok(run.prepared)
}

/// Without a canonical identity a single change is written as what it is: a removed
/// identity is deleted by its predicate, with the origin of its change, a written image
/// is appended behind that, and a partial update writes what it carries.
pub proof fn law_single_ordered_change_is_written_as_it_is(
    schema: SchemaView,
    mutation: TableMutation,
)
    requires
        ordered(schema, seq![mutation@]) is Ok,
    ensures
        ({
            let ops = ordered(schema, seq![mutation@])->Ok_0;
            match mutation {
                TableMutation::Insert(row) => ops == seq![RowOp::Insert { rows: seq![row@] }],
                TableMutation::Delete(row) => ops == seq![
                    RowOp::Delete {
                        predicates: seq![row_predicate(schema, row@)->Ok_0],
                        keys: None,
                        origin: DeleteOrigin::Delete,
                    },
                ],
                TableMutation::Replace(row) => ops == seq![
                    RowOp::Delete {
                        predicates: seq![row_predicate(schema, OldTableRow::Full(row)@)->Ok_0],
                        keys: None,
                        origin: DeleteOrigin::Replace,
                    },
                    RowOp::Insert { rows: seq![row@] },
                ],
                TableMutation::Update { delete_row, new_row: UpdatedTableRow::Full(row) } => ops
                    == seq![
                    RowOp::Delete {
                        predicates: seq![row_predicate(schema, delete_row@)->Ok_0],
                        keys: None,
                        origin: DeleteOrigin::Update,
                    },
                    RowOp::Insert { rows: seq![row@] },
                ],
                TableMutation::Update { delete_row, new_row: UpdatedTableRow::Partial(partial) } =>
                    ops == seq![
                    RowOp::Patch {
                        predicate: row_predicate(schema, delete_row@)->Ok_0,
                        partial: partial@,
                    },
                ],
            }
        }),
{
    let events = seq![mutation@];
    let start = OrderedView { ops: Seq::empty(), inserts: Seq::empty(), deletes: Seq::empty() };
    assert(events.drop_last() =~= Seq::<MutationView>::empty());
    assert(ordered_steps(schema, events.drop_last()) == Ok::<OrderedView, ErrorView>(start));
    let state = ordered_steps(schema, events)->Ok_0;
    assert(ordered_step(schema, start, mutation@) == Ok::<OrderedView, ErrorView>(state));
    assert(ordered_flushed(start) == start);
    match mutation {
        TableMutation::Insert(row) => {
            assert(state.inserts =~= seq![row@]);
        },
        TableMutation::Delete(row) => {
            assert(state.deletes =~= seq![row_predicate(schema, row@)->Ok_0]);
        },
        _ => {},
    }
}

/// Changes without a canonical identity are prepared exactly when the identities they
/// remove can be read and their partial images fit the table and carry something.
pub proof fn law_fitting_changes_are_ordered(
    name: Seq<char>,
    columns: Seq<ColumnSchema>,
    mutations: Seq<TableMutation>,
)
    ensures
        ordered(
            SchemaView { name, columns: column_views(columns) },
            mutation_views(mutations),
        ) is Ok <==> forall|i: int|
            0 <= i < mutations.len() ==> is_orderable(columns, #[trigger] mutations[i]),
{
    lemma_ordered_steps_succeed(name, columns, mutations);
}

/// Whether the identity that a change removes can be read, and a partial image fits the
/// table and carries something.
pub open spec fn is_orderable(columns: Seq<ColumnSchema>, mutation: TableMutation) -> bool {
    &&& old_image(mutation) matches Some(row) ==> identity_positions(columns).len() > 0
        && image_fits(columns, row)
    &&& mutation matches TableMutation::Update {
        new_row: UpdatedTableRow::Partial(partial),
        ..
    } ==> fits_table(partial, columns.len()) && partial.row.values@.len() > 0
}

proof fn lemma_ordered_steps_succeed(
    name: Seq<char>,
    columns: Seq<ColumnSchema>,
    mutations: Seq<TableMutation>,
)
    ensures
        ordered_steps(
            SchemaView { name, columns: column_views(columns) },
            mutation_views(mutations),
        ) is Ok <==> forall|i: int|
            0 <= i < mutations.len() ==> is_orderable(columns, #[trigger] mutations[i]),
    decreases mutations.len(),
{
    let schema = SchemaView { name, columns: column_views(columns) };
    let events = mutation_views(mutations);
    if mutations.len() > 0 {
        let shorter = mutations.drop_last();
        let last = mutations.len() - 1;
        let mutation = mutations[last];
        lemma_ordered_steps_succeed(name, columns, shorter);
        assert(events.drop_last() =~= mutation_views(shorter));
        assert(events.last() == mutation@);
        let all = forall|i: int|
            0 <= i < mutations.len() ==> is_orderable(columns, #[trigger] mutations[i]);
        let fewer = forall|i: int|
            0 <= i < shorter.len() ==> is_orderable(columns, #[trigger] shorter[i]);
        assert(all == (fewer && is_orderable(columns, mutation))) by {
            assert(forall|i: int| 0 <= i < last ==> (#[trigger] shorter[i]) == mutations[i]);
            assert(forall|i: int| 0 <= i < last ==> (#[trigger] mutations[i]) == shorter[i]);
        }
        match mutation {
            TableMutation::Insert(_) => {},
            TableMutation::Delete(row) => law_identity_is_read_at_the_identity_columns(
                name,
                columns,
                row,
            ),
            TableMutation::Replace(row) => law_identity_is_read_at_the_identity_columns(
                name,
                columns,
                OldTableRow::Full(row),
            ),
            TableMutation::Update { delete_row, new_row } => {
                law_identity_is_read_at_the_identity_columns(name, columns, delete_row);
                if new_row is Partial {
                    law_assignments_write_the_carried_values(
                        name,
                        columns,
                        new_row->Partial_0,
                    );
                }
            },
        }
    }
}

/// Whether a delete that keeps the order of its changes names its origin: a plain one may
/// remove several identities, and one of an update or a replacement removes the one of that
/// change. None is mixed and none has keys.
pub open spec fn keeps_its_origin(op: RowOp) -> bool {
    op matches RowOp::Delete { predicates, keys, origin } ==> {
        &&& keys is None
        &&& predicates.len() > 0
        &&& origin is Delete || ((origin is Update || origin is Replace) && predicates.len() == 1)
    }
}

proof fn lemma_origins_kept(schema: SchemaView, mutations: Seq<MutationView>)
    requires
        ordered_steps(schema, mutations) is Ok,
    ensures
        forall|i: int|
            0 <= i < ordered_steps(schema, mutations)->Ok_0.ops.len() ==> keeps_its_origin(
                #[trigger] ordered_steps(schema, mutations)->Ok_0.ops[i],
            ),
    decreases mutations.len(),
{
    if mutations.len() > 0 {
        lemma_origins_kept(schema, mutations.drop_last());
        let state = ordered_steps(schema, mutations.drop_last())->Ok_0;
        let after = ordered_steps(schema, mutations)->Ok_0;
        lemma_flush_keeps_origins(state);
        lemma_flush_keeps_origins(inserts_flushed(state));
        assert forall|i: int| 0 <= i < after.ops.len() implies keeps_its_origin(
            #[trigger] after.ops[i],
        ) by {
            assert(ordered_step(schema, state, mutations.last()) is Ok);
            if i < inserts_flushed(state).ops.len() {
                assert(keeps_its_origin(inserts_flushed(state).ops[i]));
            }
            if i < deletes_flushed(state).ops.len() {
                assert(keeps_its_origin(deletes_flushed(state).ops[i]));
            }
            if i < ordered_flushed(state).ops.len() {
                assert(keeps_its_origin(ordered_flushed(state).ops[i]));
            }
        }
    }
}

proof fn lemma_flush_keeps_origins(state: OrderedView)
    requires
        forall|i: int| 0 <= i < state.ops.len() ==> keeps_its_origin(#[trigger] state.ops[i]),
    ensures
        forall|i: int|
            0 <= i < inserts_flushed(state).ops.len() ==> keeps_its_origin(
                #[trigger] inserts_flushed(state).ops[i],
            ),
        forall|i: int|
            0 <= i < deletes_flushed(state).ops.len() ==> keeps_its_origin(
                #[trigger] deletes_flushed(state).ops[i],
            ),
{
}

/// Deletes that keep the order of their changes name their origin, however many changes
/// there are.
pub proof fn law_ordered_deletes_name_their_origin(
    schema: SchemaView,
    mutations: Seq<MutationView>,
    index: int,
)
    requires
        ordered(schema, mutations) is Ok,
        0 <= index < ordered(schema, mutations)->Ok_0.len(),
    ensures
        keeps_its_origin(ordered(schema, mutations)->Ok_0[index]),
{
    let state = ordered_steps(schema, mutations)->Ok_0;
    lemma_origins_kept(schema, mutations);
    lemma_flush_keeps_origins(state);
    lemma_flush_keeps_origins(inserts_flushed(state));
}

} // verus!
